use morph::error::DependencyResolvingError;
use morph::error::LexerError;
use morph::error::MorphError;
use morph::error::MorphResult;
use morph::error::ParserError;
use morph::error::ReadError;
use morph::error::SemanticError;
use morph::lexer::SimpleLexer;
use morph::parser::AstParser;
use morph::parser::SimpleParser;
use morph::semantics::AnalyzerKind;
use morph::semantics::CompositeSemanticAnalyzer;
use morph::semantics::SemanticAnalyzer;
use morph::token::Token;
use morph::token::TokenKind;

#[test]
fn read_errors_render_with_their_prefix() {
    let err = ReadError {
        message: "cause unknown".to_string(),
    };
    assert_eq!(err.message().as_str(), "ReadError: cause unknown");
}

#[test]
fn lexer_errors_render_with_line_and_column() {
    let err = LexerError {
        message: "strange word".to_string(),
        line: 4,
        column: 11,
    };
    assert_eq!(
        err.message().as_str(),
        "LexerError at line 4 column 11: strange word"
    );
}

#[test]
fn parser_errors_render_with_the_offending_token() {
    let located = ParserError {
        message: "out of place".to_string(),
        token: Some(Token {
            kind: TokenKind::BraceClose,
            line: 2,
            column: 8,
        }),
    };
    assert_eq!(
        located.message().as_str(),
        "ParserError at line 2 column 8: out of place"
    );

    let bare = ParserError {
        message: "out of tokens".to_string(),
        token: None,
    };
    assert_eq!(bare.message().as_str(), "ParserError: out of tokens");
}

#[test]
fn semantic_and_dependency_errors_render_with_their_prefixes() {
    let semantic = MorphError::Semantic(SemanticError {
        message: "something repeats".to_string(),
    });
    assert_eq!(
        semantic.message().as_str(),
        "SemanticError: something repeats"
    );

    let dependency = MorphError::DependencyResolving(DependencyResolvingError {
        message: "nothing to stand on".to_string(),
    });
    assert_eq!(
        dependency.message().as_str(),
        "DependencyResolvingError: nothing to stand on"
    );
}

#[test]
fn the_full_front_end_accepts_a_valid_unit() {
    let text = "packet Login { id = auto fields { string user string secret } }\n\
                packet Session { id = 9 fields { Login origin array u32 grants } }";
    let lines: Vec<Result<String, String>> = text.lines().map(|l| Ok(l.to_string())).collect();

    let tokens = match SimpleLexer.tokenize(&lines) {
        MorphResult::Success(tokens) => tokens,
        MorphResult::Errors(_) => panic!("lexing failed"),
    };
    let packets = match SimpleParser.parse(&tokens) {
        MorphResult::Success(packets) => packets,
        MorphResult::Errors(_) => panic!("parsing failed"),
    };
    assert_eq!(packets.len(), 2);

    let mut analyzer = CompositeSemanticAnalyzer::new();
    analyzer.add_analyzer(AnalyzerKind::Name);
    analyzer.add_analyzer(AnalyzerKind::Id);
    analyzer.add_analyzer(AnalyzerKind::Dependency);
    analyzer.add_analyzer(AnalyzerKind::Field);
    assert!(matches!(analyzer.analyze(&packets), MorphResult::Success(())));
}

#[test]
fn the_full_front_end_rejects_a_broken_unit() {
    let text = "packet A { id = 1 fields { B b } }\npacket B { id = 1 fields { A a } }";
    let lines: Vec<Result<String, String>> = text.lines().map(|l| Ok(l.to_string())).collect();

    let tokens = match SimpleLexer.tokenize(&lines) {
        MorphResult::Success(tokens) => tokens,
        MorphResult::Errors(_) => panic!("lexing failed"),
    };
    let packets = match SimpleParser.parse(&tokens) {
        MorphResult::Success(packets) => packets,
        MorphResult::Errors(_) => panic!("parsing failed"),
    };

    let mut analyzer = CompositeSemanticAnalyzer::new();
    analyzer.add_analyzer(AnalyzerKind::Name);
    analyzer.add_analyzer(AnalyzerKind::Id);
    analyzer.add_analyzer(AnalyzerKind::Dependency);
    analyzer.add_analyzer(AnalyzerKind::Field);
    // the id analyzer runs before the dependency analyzer, so the duplicate
    // id is reported and the cycle is not reached
    match analyzer.analyze(&packets) {
        MorphResult::Success(_) => panic!("expected errors"),
        MorphResult::Errors(errors) => {
            assert_eq!(errors.len(), 1);
            assert!(errors[0].message().contains("Duplicate packet id: 1"));
        }
    }
}
