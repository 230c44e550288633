use rlox::ast::Expr;
use rlox::parser::{ParseError, Parser};
use rlox::scanner::Scanner;
use rlox::token::{Literal, Token, TokenType};

fn tokens(source: &str) -> Vec<Token> {
    let mut scanner = Scanner::new(source);
    scanner.scan()
}

fn parser(source: &str) -> Parser {
    Parser::new(tokens(source))
}

fn parse(source: &str) -> Result<Expr, ParseError> {
    parser(source).expression()
}

fn tree(source: &str) -> Expr {
    parse(source).expect("an expression")
}

fn num(numeral: &str) -> Expr {
    Expr::Literal(Literal::Number(numeral.to_string()))
}

fn text(value: &str) -> Expr {
    Expr::Literal(Literal::String(value.to_string()))
}

fn boolean(value: bool) -> Expr {
    Expr::Literal(Literal::Bool(value))
}

fn op(token_type: TokenType, lexeme: &str) -> Box<Token> {
    Box::new(Token { token_type, lexeme: lexeme.to_string(), literal: Literal::Absent, line: 1 })
}

fn binary(left: Expr, token_type: TokenType, lexeme: &str, right: Expr) -> Expr {
    Expr::Binary(Box::new(left), op(token_type, lexeme), Box::new(right))
}

fn unary(token_type: TokenType, lexeme: &str, operand: Expr) -> Expr {
    Expr::Unary(op(token_type, lexeme), Box::new(operand))
}

fn group(inner: Expr) -> Expr {
    Expr::Grouping(Box::new(inner))
}

fn ternary(condition: Expr, then_branch: Expr, else_branch: Expr) -> Expr {
    Expr::Ternary(Box::new(condition), Box::new(then_branch), Box::new(else_branch))
}

/// The floating-point value of a number node.
fn value(e: &Expr) -> f64 {
    match e {
        Expr::Literal(Literal::Number(numeral)) => numeral.parse::<f64>().expect("a numeral"),
        other => panic!("not a number: {:?}", other),
    }
}

#[test]
fn multiplication_binds_tighter_than_addition() {
    let e = tree("1 + 2 * 3");
    assert_eq!(
        e,
        binary(
            num("1"),
            TokenType::PLUS,
            "+",
            binary(num("2"), TokenType::STAR, "*", num("3"))
        )
    );
    match e {
        Expr::Binary(left, plus, right) => {
            assert_eq!(value(&left), 1.0);
            assert_eq!(plus.token_type, TokenType::PLUS);
            match *right {
                Expr::Binary(two, star, three) => {
                    assert_eq!(value(&two), 2.0);
                    assert_eq!(star.token_type, TokenType::STAR);
                    assert_eq!(value(&three), 3.0);
                }
                other => panic!("not a product: {:?}", other),
            }
        }
        other => panic!("not a sum: {:?}", other),
    }
}

#[test]
fn multiplication_before_addition_nests_on_the_left() {
    assert_eq!(
        tree("1 * 2 + 3"),
        binary(
            binary(num("1"), TokenType::STAR, "*", num("2")),
            TokenType::PLUS,
            "+",
            num("3")
        )
    );
}

#[test]
fn subtraction_is_left_associative() {
    let e = tree("1 - 2 - 3");
    assert_eq!(
        e,
        binary(
            binary(num("1"), TokenType::MINUS, "-", num("2")),
            TokenType::MINUS,
            "-",
            num("3")
        )
    );
    match e {
        Expr::Binary(left, _, right) => {
            assert_eq!(value(&right), 3.0);
            match *left {
                Expr::Binary(one, _, two) => {
                    assert_eq!(value(&one), 1.0);
                    assert_eq!(value(&two), 2.0);
                }
                other => panic!("not a difference: {:?}", other),
            }
        }
        other => panic!("not a difference: {:?}", other),
    }
}

#[test]
fn every_binary_level_folds_to_the_left() {
    assert_eq!(
        tree("1 == 2 != 3"),
        binary(
            binary(num("1"), TokenType::EQ_EQ, "==", num("2")),
            TokenType::BANG_EQ,
            "!=",
            num("3")
        )
    );
    assert_eq!(
        tree("1 < 2 >= 3"),
        binary(
            binary(num("1"), TokenType::LT, "<", num("2")),
            TokenType::GT_EQ,
            ">=",
            num("3")
        )
    );
    assert_eq!(
        tree("8 / 4 * 2"),
        binary(
            binary(num("8"), TokenType::SLASH, "/", num("4")),
            TokenType::STAR,
            "*",
            num("2")
        )
    );
}

#[test]
fn levels_nest_by_precedence() {
    assert_eq!(
        tree("1 + 2 < 3 * 4 == true"),
        binary(
            binary(
                binary(num("1"), TokenType::PLUS, "+", num("2")),
                TokenType::LT,
                "<",
                binary(num("3"), TokenType::STAR, "*", num("4"))
            ),
            TokenType::EQ_EQ,
            "==",
            boolean(true)
        )
    );
}

#[test]
fn unary_operators_nest_to_the_right() {
    assert_eq!(
        tree("!-1"),
        unary(TokenType::BANG, "!", unary(TokenType::MINUS, "-", num("1")))
    );
    assert_eq!(
        tree("1 - -2"),
        binary(num("1"), TokenType::MINUS, "-", unary(TokenType::MINUS, "-", num("2")))
    );
    assert_eq!(
        tree("-1 * 2"),
        binary(unary(TokenType::MINUS, "-", num("1")), TokenType::STAR, "*", num("2"))
    );
}

#[test]
fn literals() {
    assert_eq!(tree("true"), boolean(true));
    assert_eq!(tree("false"), boolean(false));
    assert_eq!(tree("nil"), Expr::Literal(Literal::Nil));
    assert_eq!(tree("12.5"), num("12.5"));
    assert_eq!(value(&tree("12.5")), 12.5);
    assert_eq!(tree("\"a b\""), text("a b"));
}

#[test]
fn grouping() {
    assert_eq!(
        tree("(1 + 2) * 3"),
        binary(
            group(binary(num("1"), TokenType::PLUS, "+", num("2"))),
            TokenType::STAR,
            "*",
            num("3")
        )
    );
    assert_eq!(tree("((nil))"), group(group(Expr::Literal(Literal::Nil))));
}

#[test]
fn missing_right_paren_is_an_error_at_the_end() {
    let mut p = parser("(1 + 2");
    let error = p.expression().expect_err("a syntax error");
    assert_eq!(error.token.token_type, TokenType::EOF);
    assert_eq!(error.message, "Expected ')' after expression");
    assert_eq!(error.to_string(), "Expected ')' after expression at end.");
    assert!(parser("(1 + 2").parse().is_none());
}

#[test]
fn missing_right_paren_is_an_error_at_the_token_in_its_place() {
    let error = parse("(1 + 2 3").expect_err("a syntax error");
    assert_eq!(error.token.token_type, TokenType::NUMBER);
    assert_eq!(error.token.lexeme, "3");
    assert_eq!(error.message, "Expected ')' after expression");
}

#[test]
fn ternary_expression() {
    let e = tree("true ? 1 : 2");
    assert_eq!(e, ternary(boolean(true), num("1"), num("2")));
    match e {
        Expr::Ternary(_, then_branch, else_branch) => {
            assert_eq!(value(&then_branch), 1.0);
            assert_eq!(value(&else_branch), 2.0);
        }
        other => panic!("not a choice: {:?}", other),
    }
}

#[test]
fn ternary_nests_to_the_right() {
    assert_eq!(
        tree("true ? 1 : false ? 2 : 3"),
        ternary(boolean(true), num("1"), ternary(boolean(false), num("2"), num("3")))
    );
    assert_eq!(
        tree("true ? false ? 1 : 2 : 3"),
        ternary(boolean(true), ternary(boolean(false), num("1"), num("2")), num("3"))
    );
    assert_eq!(
        tree("1 == 2 ? 3 + 4 : 5"),
        ternary(
            binary(num("1"), TokenType::EQ_EQ, "==", num("2")),
            binary(num("3"), TokenType::PLUS, "+", num("4")),
            num("5")
        )
    );
}

#[test]
fn ternary_without_colon_is_an_error() {
    let error = parse("true ? 1").expect_err("a syntax error");
    assert_eq!(error.token.token_type, TokenType::EOF);
    assert_eq!(error.message, "Expected ':' after expression");
    let error = parse("true ? 1 2").expect_err("a syntax error");
    assert_eq!(error.token.lexeme, "2");
}

#[test]
fn no_expression_leaves_the_cursor() {
    let mut p = parser("+ 1");
    let error = p.primary().expect_err("a syntax error");
    assert_eq!(error.token.token_type, TokenType::PLUS);
    assert_eq!(error.message, "Expected expression");
    assert_eq!(p.peek().token_type, TokenType::PLUS);
    assert_eq!(error.to_string(), "Expected expression at line 1");
}

#[test]
fn empty_input_is_an_error_at_the_end() {
    let error = parse("").expect_err("a syntax error");
    assert_eq!(error.token.token_type, TokenType::EOF);
    assert_eq!(error.message, "Expected expression");
    assert_eq!(error.to_string(), "Expected expression at end.");
    assert!(parser("").parse().is_none());
}

#[test]
fn missing_operand_is_an_error_where_it_should_stand() {
    let mut p = parser("1 +\n\n* 2");
    let error = p.expression().expect_err("a syntax error");
    assert_eq!(error.token.token_type, TokenType::STAR);
    assert_eq!(error.token.line, 3);
    assert_eq!(error.to_string(), "Expected expression at line 3");
    assert_eq!(p.peek().token_type, TokenType::STAR);
}

#[test]
fn error_line_is_written_in_decimal() {
    let source = format!("{}@", "\n".repeat(1204));
    let mut all = tokens(&source);
    assert_eq!(all.len(), 1);
    let end = all.pop().expect("the end token");
    assert_eq!(end.line, 1205);
    let error = ParseError {
        token: Token { token_type: TokenType::NIL, ..end },
        message: "Expected expression".to_string(),
    };
    assert_eq!(error.to_string(), "Expected expression at line 1205");
    let error = ParseError {
        token: Token {
            token_type: TokenType::NIL,
            lexeme: String::new(),
            literal: Literal::Absent,
            line: 0,
        },
        message: "m".to_string(),
    };
    assert_eq!(error.to_string(), "m at line 0");
    let error = ParseError {
        token: Token {
            token_type: TokenType::NIL,
            lexeme: String::new(),
            literal: Literal::Absent,
            line: 9_876_543_210,
        },
        message: String::new(),
    };
    assert_eq!(error.to_string(), " at line 9876543210");
}

#[test]
fn parsing_stops_behind_the_expression() {
    let mut p = parser("1 + 2 ; 3");
    assert!(p.parse().is_some());
    assert_eq!(p.peek().token_type, TokenType::SEMICOLON);
    assert_eq!(p.previous().lexeme, "2");
}

#[test]
fn consume_takes_only_the_expected_token() {
    let mut p = parser("( )");
    let taken = p.consume(TokenType::LPAREN, "no").expect("the parenthesis");
    assert_eq!(taken.token_type, TokenType::LPAREN);
    let error = p.consume(TokenType::LPAREN, "Expected '('").expect_err("an error");
    assert_eq!(error.token.token_type, TokenType::RPAREN);
    assert_eq!(error.message, "Expected '('");
    assert_eq!(p.peek().token_type, TokenType::RPAREN);
    let taken = p.consume(TokenType::RPAREN, "no").expect("the parenthesis");
    assert_eq!(taken.token_type, TokenType::RPAREN);
    assert!(p.is_at_end());
    assert!(p.consume(TokenType::EOF, "no").is_err());
}

#[test]
fn cursor_primitives() {
    let mut p = parser("1 ;");
    assert!(!p.is_at_end());
    assert!(p.check(TokenType::NUMBER));
    assert!(!p.check(TokenType::SEMICOLON));
    assert!(!p.match_op(vec![TokenType::SEMICOLON, TokenType::PLUS]));
    assert!(p.match_op(vec![TokenType::SEMICOLON, TokenType::NUMBER]));
    assert_eq!(p.previous().token_type, TokenType::NUMBER);
    assert_eq!(p.advance().token_type, TokenType::SEMICOLON);
    assert!(p.is_at_end());
    assert!(!p.check(TokenType::EOF));
    assert!(!p.match_op(vec![TokenType::EOF]));
    assert_eq!(p.advance().token_type, TokenType::SEMICOLON);
    assert_eq!(p.peek().token_type, TokenType::EOF);
}

#[test]
fn synchronize_stops_behind_a_semicolon() {
    let mut p = parser("+ 1 2 ; 3 4");
    assert!(p.expression().is_err());
    p.synchronize();
    assert_eq!(p.previous().token_type, TokenType::SEMICOLON);
    assert_eq!(p.peek().lexeme, "3");
}

#[test]
fn synchronize_stops_before_a_statement() {
    for keyword in ["class", "for", "fun", "if", "print", "return", "var", "while"] {
        let source = format!("* 1 2 {} 3 ;", keyword);
        let mut p = parser(&source);
        assert!(p.expression().is_err());
        p.synchronize();
        assert_eq!(p.peek().lexeme, keyword);
    }
}

#[test]
fn synchronize_always_skips_the_failing_token() {
    let mut p = parser("var x");
    p.synchronize();
    assert_eq!(p.peek().lexeme, "x");
    let mut p = parser("; ; 1");
    p.synchronize();
    assert_eq!(p.previous().token_type, TokenType::SEMICOLON);
    assert_eq!(p.peek().token_type, TokenType::SEMICOLON);
}

#[test]
fn synchronize_stops_at_the_end() {
    let mut p = parser(") 1 2");
    p.synchronize();
    assert!(p.is_at_end());
    p.synchronize();
    assert!(p.is_at_end());
    let mut p = parser("");
    p.synchronize();
    assert!(p.is_at_end());
}

#[test]
fn trees_can_be_cloned() {
    let e = tree("(1 + -2) * 3 == 4 ? \"a\" : nil");
    assert_eq!(e.clone(), e);
}
