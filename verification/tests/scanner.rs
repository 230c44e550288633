use rlox::diagnostic::{Diagnostic, Fault};
use rlox::scanner::{check_token_types, Scanner};
use rlox::token::{Literal, Token, TokenType};

fn scan(source: &str) -> Vec<Token> {
    let mut scanner = Scanner::new(source);
    scanner.scan()
}

fn types(source: &str) -> Vec<TokenType> {
    scan(source).iter().map(|t| t.token_type).collect()
}

fn complaints(source: &str) -> Vec<Diagnostic> {
    let mut scanner = Scanner::new(source);
    scanner.scan();
    scanner.diagnostics().clone()
}

/// The floating-point value of a number literal.
fn value(literal: &Literal) -> f64 {
    match literal {
        Literal::Number(numeral) => numeral.parse::<f64>().expect("a numeral"),
        other => panic!("not a number: {:?}", other),
    }
}

fn plain(token_type: TokenType, lexeme: &str, line: usize) -> Token {
    Token { token_type, lexeme: lexeme.to_string(), literal: Literal::Absent, line }
}

fn number(lexeme: &str, line: usize) -> Token {
    Token {
        token_type: TokenType::NUMBER,
        lexeme: lexeme.to_string(),
        literal: Literal::Number(lexeme.to_string()),
        line,
    }
}

#[test]
fn single_token() {
    let expected = vec![
        TokenType::LPAREN,
        TokenType::RPAREN,
        TokenType::LBRACE,
        TokenType::RBRACE,
        TokenType::COMMA,
        TokenType::DOT,
        TokenType::MINUS,
        TokenType::PLUS,
        TokenType::SEMICOLON,
        TokenType::STAR,
        TokenType::EOF,
    ];

    let source = "(){},.-+;*";
    assert!(check_token_types(source, expected));
}

#[test]
fn operators() {
    let expected = vec![
        TokenType::BANG,
        TokenType::BANG_EQ,
        TokenType::EQ,
        TokenType::EQ_EQ,
        TokenType::LT,
        TokenType::LT_EQ,
        TokenType::GT,
        TokenType::GT_EQ,
        TokenType::SLASH,
        TokenType::EOF,
    ];

    let source = "
    ! !=
    = ==
    < <=
    > >=
    / // a one line comment
    /* this is a comment 
       that spans 
       multiple lines */
    ";

    assert!(check_token_types(source, expected));
}

#[test]
fn strings() {
    let expected = vec![
        Token {
            token_type: TokenType::STRING,
            lexeme: "\"this is a test string\"".to_string(),
            literal: Literal::String("this is a test string".to_string()),
            line: 2,
        },
        Token {
            token_type: TokenType::SEMICOLON,
            lexeme: ";".to_string(),
            literal: Literal::Absent,
            line: 2,
        },
        Token {
            token_type: TokenType::EOF,
            lexeme: " ".to_string(),
            literal: Literal::Absent,
            line: 3,
        },
    ];

    let source = r#"
    "this is a test string";
    "#;

    let mut scanner = Scanner::new(source);
    let tokens = scanner.scan();

    assert_eq!(expected, tokens);
}

#[test]
fn numbers() {
    let expected = vec![
        Token {
            token_type: TokenType::NUMBER,
            lexeme: "1234567890".to_string(),
            literal: Literal::Number("1234567890".to_string()),
            line: 1,
        },
        Token {
            token_type: TokenType::NUMBER,
            lexeme: "1245890.0".to_string(),
            literal: Literal::Number("1245890.0".to_string()),
            line: 2,
        },
        Token {
            token_type: TokenType::NUMBER,
            lexeme: "10.22".to_string(),
            literal: Literal::Number("10.22".to_string()),
            line: 3,
        },
        Token {
            token_type: TokenType::NUMBER,
            lexeme: "67890".to_string(),
            literal: Literal::Number("67890".to_string()),
            line: 4,
        },
        Token {
            token_type: TokenType::EOF,
            lexeme: " ".to_string(),
            literal: Literal::Absent,
            line: 5,
        },
    ];

    let source = "1234567890
    1245890.0
    10.22
    67890
    ";

    let mut scanner = Scanner::new(source);
    let tokens = scanner.scan();

    assert_eq!(expected, tokens);
    assert_eq!(value(&tokens[0].literal), 1_234_567_890.0);
    assert_eq!(value(&tokens[1].literal), 1_245_890.0);
    assert_eq!(value(&tokens[2].literal), 10.22);
    assert_eq!(value(&tokens[3].literal), 67890.0);
}

#[test]
fn identifiers() {
    let expected = vec![
        Token {
            token_type: TokenType::VAR,
            lexeme: "var".to_string(),
            literal: Literal::Absent,
            line: 1,
        },
        Token {
            token_type: TokenType::IDENTIFIER,
            lexeme: "number".to_string(),
            literal: Literal::Absent,
            line: 1,
        },
        Token {
            token_type: TokenType::EQ,
            lexeme: "=".to_string(),
            literal: Literal::Absent,
            line: 1,
        },
        Token {
            token_type: TokenType::NUMBER,
            lexeme: "4".to_string(),
            literal: Literal::Number("4".to_string()),
            line: 1,
        },
        Token {
            token_type: TokenType::SEMICOLON,
            lexeme: ";".to_string(),
            literal: Literal::Absent,
            line: 1,
        },
        Token {
            token_type: TokenType::EOF,
            lexeme: " ".to_string(),
            literal: Literal::Absent,
            line: 2,
        },
    ];

    let source = "var number = 4;
    ";
    let mut scanner = Scanner::new(source);
    let tokens = scanner.scan();

    assert_eq!(expected, tokens);
    assert_eq!(value(&tokens[3].literal), 4.0);
}

#[test]
fn empty_source_gives_only_the_end_token() {
    assert_eq!(scan(""), vec![plain(TokenType::EOF, "", 1)]);
    assert!(complaints("").is_empty());
}

#[test]
fn last_token_is_always_the_end_token() {
    for source in ["", "1", "\"open", "/* open", "@", "a b c", "é", "\n\n", "1.", "// c"] {
        let tokens = scan(source);
        assert_eq!(tokens.last().map(|t| t.token_type), Some(TokenType::EOF), "{:?}", source);
        let ends = tokens.iter().filter(|t| t.token_type == TokenType::EOF).count();
        assert_eq!(ends, 1, "{:?}", source);
    }
}

#[test]
fn lines_never_decrease() {
    let source = "a\n\"two\nlines\" b /* c\n\n d */ e\n// f\n1.5\n";
    let tokens = scan(source);
    let lines: Vec<usize> = tokens.iter().map(|t| t.line).collect();
    assert_eq!(lines, vec![1, 3, 3, 5, 7, 8]);
    for pair in lines.windows(2) {
        assert!(pair[0] <= pair[1]);
    }
}

#[test]
fn numeral_round_trip() {
    for (source, expected) in [("0", 0.0), ("7", 7.0), ("10.22", 10.22), ("123.456", 123.456)] {
        let tokens = scan(source);
        assert_eq!(tokens.len(), 2);
        assert_eq!(tokens[0], number(source, 1));
        assert_eq!(value(&tokens[0].literal), expected);
        assert_eq!(tokens[1], plain(TokenType::EOF, source, 1));
    }
}

#[test]
fn trailing_dot_is_not_part_of_a_number() {
    assert_eq!(
        scan("1."),
        vec![number("1", 1), plain(TokenType::DOT, ".", 1), plain(TokenType::EOF, ".", 1)]
    );
    assert_eq!(
        scan("1.a"),
        vec![
            number("1", 1),
            plain(TokenType::DOT, ".", 1),
            plain(TokenType::IDENTIFIER, "a", 1),
            plain(TokenType::EOF, "a", 1),
        ]
    );
    assert_eq!(
        scan("1.5.2"),
        vec![
            number("1.5", 1),
            plain(TokenType::DOT, ".", 1),
            number("2", 1),
            plain(TokenType::EOF, "2", 1),
        ]
    );
}

#[test]
fn string_value_is_the_text_between_the_quotes() {
    let tokens = scan("\"a\nb\nc\" x");
    assert_eq!(
        tokens,
        vec![
            Token {
                token_type: TokenType::STRING,
                lexeme: "\"a\nb\nc\"".to_string(),
                literal: Literal::String("a\nb\nc".to_string()),
                line: 3,
            },
            plain(TokenType::IDENTIFIER, "x", 3),
            plain(TokenType::EOF, "x", 3),
        ]
    );
    let tokens = scan("\"\"");
    assert_eq!(tokens[0].literal, Literal::String(String::new()));
    assert_eq!(tokens[0].lexeme, "\"\"");
}

#[test]
fn string_may_hold_any_characters() {
    let tokens = scan("\"héllo → wörld\"");
    assert_eq!(tokens[0].token_type, TokenType::STRING);
    assert_eq!(tokens[0].lexeme, "\"héllo → wörld\"");
    assert_eq!(tokens[0].literal, Literal::String("héllo → wörld".to_string()));
    assert!(complaints("\"héllo → wörld\"").is_empty());
}

#[test]
fn unterminated_string_still_gives_a_token() {
    let source = "1 \"abc\nde";
    assert_eq!(
        scan(source),
        vec![
            number("1", 1),
            Token {
                token_type: TokenType::STRING,
                lexeme: "\"abc\nde".to_string(),
                literal: Literal::String("abc\nde".to_string()),
                line: 2,
            },
            Token {
                token_type: TokenType::EOF,
                lexeme: "\"abc\nde".to_string(),
                literal: Literal::Absent,
                line: 2,
            },
        ]
    );
    assert_eq!(
        complaints(source),
        vec![Diagnostic { fault: Fault::UnterminatedString, line: 2 }]
    );
}

#[test]
fn illegal_characters_are_skipped() {
    let source = "1 @ 2\n# 3";
    assert_eq!(
        types(source),
        vec![TokenType::NUMBER, TokenType::NUMBER, TokenType::NUMBER, TokenType::EOF]
    );
    assert_eq!(
        complaints(source),
        vec![
            Diagnostic { fault: Fault::IllegalCharacter, line: 1 },
            Diagnostic { fault: Fault::IllegalCharacter, line: 2 },
        ]
    );
}

#[test]
fn bytes_outside_ascii_are_illegal_one_by_one() {
    let source = "a é";
    assert_eq!(
        scan(source),
        vec![plain(TokenType::IDENTIFIER, "a", 1), plain(TokenType::EOF, "", 1)]
    );
    assert_eq!(
        complaints(source),
        vec![
            Diagnostic { fault: Fault::IllegalCharacter, line: 1 },
            Diagnostic { fault: Fault::IllegalCharacter, line: 1 },
        ]
    );
}

#[test]
fn keyword_lookup_is_exact() {
    assert_eq!(types("if"), vec![TokenType::IF, TokenType::EOF]);
    assert_eq!(types("If"), vec![TokenType::IDENTIFIER, TokenType::EOF]);
    assert_eq!(types("IF"), vec![TokenType::IDENTIFIER, TokenType::EOF]);
    assert_eq!(types("iff"), vec![TokenType::IDENTIFIER, TokenType::EOF]);
    assert_eq!(types("_if"), vec![TokenType::IDENTIFIER, TokenType::EOF]);
    assert_eq!(types("if2"), vec![TokenType::IDENTIFIER, TokenType::EOF]);
}

#[test]
fn every_keyword_has_its_token() {
    let table = [
        ("and", TokenType::AND),
        ("class", TokenType::CLASS),
        ("else", TokenType::ELSE),
        ("false", TokenType::FALSE),
        ("for", TokenType::FOR),
        ("fun", TokenType::FUN),
        ("if", TokenType::IF),
        ("nil", TokenType::NIL),
        ("or", TokenType::OR),
        ("print", TokenType::PRINT),
        ("return", TokenType::RETURN),
        ("super", TokenType::SUPER),
        ("this", TokenType::THIS),
        ("true", TokenType::TRUE),
        ("var", TokenType::VAR),
        ("while", TokenType::WHILE),
    ];
    for (word, token_type) in table {
        assert_eq!(Scanner::keywords(word), token_type);
        assert_eq!(types(word), vec![token_type, TokenType::EOF]);
        assert_eq!(Scanner::keywords(&word.to_uppercase()), TokenType::IDENTIFIER);
    }
    assert_eq!(Scanner::keywords("other"), TokenType::IDENTIFIER);
    assert_eq!(Scanner::keywords(""), TokenType::IDENTIFIER);
}

#[test]
fn operator_disambiguation() {
    assert_eq!(types("!"), vec![TokenType::BANG, TokenType::EOF]);
    assert_eq!(types("!="), vec![TokenType::BANG_EQ, TokenType::EOF]);
    assert_eq!(scan("!=")[0].lexeme, "!=");
    assert_eq!(types("! ="), vec![TokenType::BANG, TokenType::EQ, TokenType::EOF]);
    assert_eq!(types("==="), vec![TokenType::EQ_EQ, TokenType::EQ, TokenType::EOF]);
    assert_eq!(types("<=>"), vec![TokenType::LT_EQ, TokenType::GT, TokenType::EOF]);
    assert_eq!(types(">=="), vec![TokenType::GT_EQ, TokenType::EQ, TokenType::EOF]);
}

#[test]
fn ternary_punctuation() {
    assert_eq!(
        types("a ? b : c"),
        vec![
            TokenType::IDENTIFIER,
            TokenType::QUESTION,
            TokenType::IDENTIFIER,
            TokenType::COLON,
            TokenType::IDENTIFIER,
            TokenType::EOF,
        ]
    );
}

#[test]
fn comment_suppression() {
    let tokens = scan("1 // comment\n2");
    assert_eq!(
        tokens,
        vec![number("1", 1), number("2", 2), plain(TokenType::EOF, "2", 2)]
    );
    assert_eq!(value(&tokens[0].literal), 1.0);
    assert_eq!(value(&tokens[1].literal), 2.0);
}

#[test]
fn line_comment_at_end_of_input() {
    assert_eq!(scan("// only"), vec![plain(TokenType::EOF, "// only", 1)]);
    assert_eq!(types("/"), vec![TokenType::SLASH, TokenType::EOF]);
}

#[test]
fn block_comments_count_lines_and_do_not_nest() {
    assert_eq!(
        scan("/* a\n b\n */ x"),
        vec![plain(TokenType::IDENTIFIER, "x", 3), plain(TokenType::EOF, "x", 3)]
    );
    assert_eq!(
        types("/* a /* b */ c */"),
        vec![TokenType::IDENTIFIER, TokenType::STAR, TokenType::SLASH, TokenType::EOF]
    );
    assert_eq!(types("/**/1"), vec![TokenType::NUMBER, TokenType::EOF]);
    assert_eq!(types("/***/1"), vec![TokenType::NUMBER, TokenType::EOF]);
    assert!(complaints("/* a /* b */ c */").is_empty());
}

#[test]
fn unterminated_block_comment_is_reported() {
    for source in ["/* a\nb", "/*", "/*/", "/* *"] {
        assert_eq!(types(source), vec![TokenType::EOF], "{:?}", source);
    }
    assert_eq!(
        complaints("/* a\nb"),
        vec![Diagnostic { fault: Fault::UnterminatedComment, line: 2 }]
    );
    assert_eq!(
        complaints("/*/"),
        vec![Diagnostic { fault: Fault::UnterminatedComment, line: 1 }]
    );
}

#[test]
fn check_token_types_compares_a_prefix() {
    assert!(check_token_types("1 + 2", vec![]));
    assert!(check_token_types("1 + 2", vec![TokenType::NUMBER, TokenType::PLUS]));
    assert!(!check_token_types("1 + 2", vec![TokenType::NUMBER, TokenType::MINUS]));
    assert!(!check_token_types(
        "1",
        vec![TokenType::NUMBER, TokenType::EOF, TokenType::EOF]
    ));
}

#[test]
fn scanning_again_adds_another_end_token() {
    let mut scanner = Scanner::new("a");
    let first = scanner.scan();
    let second = scanner.scan();
    assert_eq!(first.len(), 2);
    assert_eq!(second.len(), 3);
    assert_eq!(second[..2], first[..]);
    assert_eq!(second[2], plain(TokenType::EOF, "a", 1));
}
