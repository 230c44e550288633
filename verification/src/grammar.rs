//! What the expression at a position in a token sequence is.
//!
//! ```text
//! expression → ternary
//! ternary    → equality ( "?" expression ":" ternary )?
//! equality   → comparison ( ("!=" | "==") comparison )*
//! comparison → term ( (">" | ">=" | "<" | "<=") term )*
//! term       → factor ( ("-" | "+") factor )*
//! factor     → unary ( ("/" | "*") unary )*
//! unary      → ("!" | "-") unary | primary
//! primary    → NUMBER | STRING | "true" | "false" | "nil"
//!            | "(" expression ")"
//! ```
use crate::ast::Expr;
use crate::token::{Literal, Token, TokenType};
use vstd::prelude::*;

verus! {

/// The rules of the grammar, from the loosest binding to the tightest. An
/// expression is a `Ternary`.
pub enum Level {
    Ternary,
    Equality,
    Comparison,
    Term,
    Factor,
    Unary,
    Primary,
}

/// Why no expression stands at a position: the place of the token that does
/// not fit, and the complaint about it.
pub struct Failure {
    pub at: int,
    pub message: Seq<char>,
}

impl Level {
    /// The rule that this rule takes its operands from.
    pub open spec fn tighter(self) -> Level {
        match self {
            Level::Ternary => Level::Equality,
            Level::Equality => Level::Comparison,
            Level::Comparison => Level::Term,
            Level::Term => Level::Factor,
            Level::Factor => Level::Unary,
            Level::Unary => Level::Primary,
            Level::Primary => Level::Primary,
        }
    }

    /// How many rules bind tighter than this one.
    pub open spec fn rank(self) -> nat {
        match self {
            Level::Ternary => 6,
            Level::Equality => 5,
            Level::Comparison => 4,
            Level::Term => 3,
            Level::Factor => 2,
            Level::Unary => 1,
            Level::Primary => 0,
        }
    }

    /// Whether `t` is an operator that joins two operands at this level.
    pub open spec fn joins(self, t: TokenType) -> bool {
        match self {
            Level::Equality => t == TokenType::BANG_EQ || t == TokenType::EQ_EQ,
            Level::Comparison => t == TokenType::GT || t == TokenType::GT_EQ || t == TokenType::LT
                || t == TokenType::LT_EQ,
            Level::Term => t == TokenType::MINUS || t == TokenType::PLUS,
            Level::Factor => t == TokenType::SLASH || t == TokenType::STAR,
            _ => false,
        }
    }
}

/// Whether `t` is an operator that stands before its one operand.
pub open spec fn prefixes(t: TokenType) -> bool {
    t == TokenType::BANG || t == TokenType::MINUS
}

/// The type of the token at `pos`, and `EOF` on either side of the sequence.
pub open spec fn type_at(tokens: Seq<Token>, pos: int) -> TokenType {
    if 0 <= pos < tokens.len() {
        tokens[pos].token_type
    } else {
        TokenType::EOF
    }
}

/// How many tokens lie at and after `pos`.
pub open spec fn left(tokens: Seq<Token>, pos: int) -> nat {
    if pos < tokens.len() {
        (tokens.len() - pos) as nat
    } else {
        0
    }
}

/// The complaint about a token that begins no expression.
pub open spec fn expected_expression() -> Seq<char> {
    "Expected expression"@
}

/// The complaint about a token that stands where a group has to close.
pub open spec fn expected_right_paren() -> Seq<char> {
    "Expected ')' after expression"@
}

/// The complaint about a token that stands where the second branch of a
/// choice has to begin.
pub open spec fn expected_colon() -> Seq<char> {
    "Expected ':' after expression"@
}

/// The expression of the given level that begins at `pos`, or the first
/// token that stands in its way. An expression `e` reaches up to
/// `pos + e.width()`.
pub open spec fn parse(tokens: Seq<Token>, pos: int, level: Level) -> Result<Expr, Failure>
    decreases left(tokens, pos), level.rank(), 1nat,
{
    match level {
        Level::Ternary => match parse(tokens, pos, Level::Equality) {
            Ok(condition) => {
                let question = pos + condition.width();
                if type_at(tokens, question) == TokenType::QUESTION {
                    match parse(tokens, question + 1, Level::Ternary) {
                        Ok(then_branch) => {
                            let colon = question + 1 + then_branch.width();
                            if type_at(tokens, colon) == TokenType::COLON {
                                match parse(tokens, colon + 1, Level::Ternary) {
                                    Ok(else_branch) => Ok(
                                        Expr::Ternary(
                                            Box::new(condition),
                                            Box::new(then_branch),
                                            Box::new(else_branch),
                                        ),
                                    ),
                                    Err(failure) => Err(failure),
                                }
                            } else {
                                Err(Failure { at: colon, message: expected_colon() })
                            }
                        },
                        Err(failure) => Err(failure),
                    }
                } else {
                    Ok(condition)
                }
            },
            Err(failure) => Err(failure),
        },
        Level::Equality | Level::Comparison | Level::Term | Level::Factor => match parse(
            tokens,
            pos,
            level.tighter(),
        ) {
            Ok(first) => fold(tokens, pos + first.width(), level, first),
            Err(failure) => Err(failure),
        },
        Level::Unary => if prefixes(type_at(tokens, pos)) {
            match parse(tokens, pos + 1, Level::Unary) {
                Ok(operand) => Ok(Expr::Unary(Box::new(tokens[pos]), Box::new(operand))),
                Err(failure) => Err(failure),
            }
        } else {
            parse(tokens, pos, Level::Primary)
        },
        Level::Primary => match type_at(tokens, pos) {
            TokenType::FALSE => Ok(Expr::Literal(Literal::Bool(false))),
            TokenType::TRUE => Ok(Expr::Literal(Literal::Bool(true))),
            TokenType::NIL => Ok(Expr::Literal(Literal::Nil)),
            TokenType::NUMBER | TokenType::STRING => Ok(Expr::Literal(tokens[pos].literal)),
            TokenType::LPAREN => match parse(tokens, pos + 1, Level::Ternary) {
                Ok(inner) => {
                    let close = pos + 1 + inner.width();
                    if type_at(tokens, close) == TokenType::RPAREN {
                        Ok(Expr::Grouping(Box::new(inner)))
                    } else {
                        Err(Failure { at: close, message: expected_right_paren() })
                    }
                },
                Err(failure) => Err(failure),
            },
            _ => Err(Failure { at: pos, message: expected_expression() }),
        },
    }
}

/// The expression of a binary level whose operands up to `pos` have been
/// folded into `so_far`: every further operator of the level takes `so_far`
/// as its left operand.
pub open spec fn fold(tokens: Seq<Token>, pos: int, level: Level, so_far: Expr) -> Result<
    Expr,
    Failure,
>
    decreases left(tokens, pos), level.rank(), 0nat,
{
    if level.joins(type_at(tokens, pos)) {
        match parse(tokens, pos + 1, level.tighter()) {
            Ok(right) => fold(
                tokens,
                pos + 1 + right.width(),
                level,
                Expr::Binary(Box::new(so_far), Box::new(tokens[pos]), Box::new(right)),
            ),
            Err(failure) => Err(failure),
        }
    } else {
        Ok(so_far)
    }
}

/// Where a parser that began at `pos` stands once it has found `outcome`:
/// behind the expression, or on the token that did not fit.
pub open spec fn stop(pos: int, outcome: Result<Expr, Failure>) -> int {
    match outcome {
        Ok(e) => pos + e.width(),
        Err(failure) => failure.at,
    }
}

/// Whether a token sequence ends as every scan ends: with an `EOF` token.
pub open spec fn terminated(tokens: Seq<Token>) -> bool {
    tokens.len() > 0 && tokens.last().token_type == TokenType::EOF
}

/// Whether `e` is an expression of the given level, written with the tokens
/// from `pos` on: the grammar, read as a relation between trees and tokens.
pub open spec fn derives(tokens: Seq<Token>, level: Level, e: Expr, pos: int) -> bool
    decreases e, level.rank(),
{
    match level {
        Level::Ternary => {
            ||| derives(tokens, Level::Equality, e, pos)
            ||| {
                &&& e matches Expr::Ternary(condition, then_branch, else_branch)
                &&& derives(tokens, Level::Equality, *condition, pos)
                &&& type_at(tokens, pos + condition.width()) == TokenType::QUESTION
                &&& derives(tokens, Level::Ternary, *then_branch, pos + condition.width() + 1)
                &&& type_at(tokens, pos + condition.width() + 1 + then_branch.width())
                    == TokenType::COLON
                &&& derives(
                    tokens,
                    Level::Ternary,
                    *else_branch,
                    pos + condition.width() + 1 + then_branch.width() + 1,
                )
            }
        },
        Level::Equality | Level::Comparison | Level::Term | Level::Factor => {
            ||| derives(tokens, level.tighter(), e, pos)
            ||| {
                &&& e matches Expr::Binary(first, operator, second)
                &&& derives(tokens, level, *first, pos)
                &&& level.joins(type_at(tokens, pos + first.width()))
                &&& *operator == tokens[pos + first.width()]
                &&& derives(tokens, level.tighter(), *second, pos + first.width() + 1)
            }
        },
        Level::Unary => {
            ||| derives(tokens, Level::Primary, e, pos)
            ||| {
                &&& e matches Expr::Unary(operator, operand)
                &&& prefixes(type_at(tokens, pos))
                &&& *operator == tokens[pos]
                &&& derives(tokens, Level::Unary, *operand, pos + 1)
            }
        },
        Level::Primary => match e {
            Expr::Literal(value) => {
                ||| type_at(tokens, pos) == TokenType::FALSE && value == Literal::Bool(false)
                ||| type_at(tokens, pos) == TokenType::TRUE && value == Literal::Bool(true)
                ||| type_at(tokens, pos) == TokenType::NIL && value == Literal::Nil
                ||| (type_at(tokens, pos) == TokenType::NUMBER || type_at(tokens, pos)
                    == TokenType::STRING) && value == tokens[pos].literal
            },
            Expr::Grouping(inner) => {
                &&& type_at(tokens, pos) == TokenType::LPAREN
                &&& derives(tokens, Level::Ternary, *inner, pos + 1)
                &&& type_at(tokens, pos + 1 + inner.width()) == TokenType::RPAREN
            },
            _ => false,
        },
    }
}

/// Whether every `NUMBER` and every `STRING` among the tokens has a value.
pub open spec fn carry_values(tokens: Seq<Token>) -> bool {
    forall|i: int|
        0 <= i < tokens.len() && ((#[trigger] tokens[i]).token_type == TokenType::NUMBER
            || tokens[i].token_type == TokenType::STRING) ==> tokens[i].literal
            != Literal::Absent
}

/// The parser is sound: the expression it finds at a position is one that
/// the grammar derives there.
pub proof fn lemma_parse_derives(tokens: Seq<Token>, pos: int, level: Level)
    ensures
        parse(tokens, pos, level) matches Ok(e) ==> derives(tokens, level, e, pos),
    decreases left(tokens, pos), level.rank(), 1nat,
{
    match level {
        Level::Ternary => {
            lemma_parse_derives(tokens, pos, Level::Equality);
            if let Ok(condition) = parse(tokens, pos, Level::Equality) {
                let question = pos + condition.width();
                if type_at(tokens, question) == TokenType::QUESTION {
                    lemma_parse_derives(tokens, question + 1, Level::Ternary);
                    if let Ok(then_branch) = parse(tokens, question + 1, Level::Ternary) {
                        let colon = question + 1 + then_branch.width();
                        if type_at(tokens, colon) == TokenType::COLON {
                            lemma_parse_derives(tokens, colon + 1, Level::Ternary);
                        }
                    }
                }
            }
        },
        Level::Equality | Level::Comparison | Level::Term | Level::Factor => {
            lemma_parse_derives(tokens, pos, level.tighter());
            if let Ok(first) = parse(tokens, pos, level.tighter()) {
                lemma_fold_derives(tokens, pos, level, first);
            }
        },
        Level::Unary => {
            if prefixes(type_at(tokens, pos)) {
                lemma_parse_derives(tokens, pos + 1, Level::Unary);
            } else {
                lemma_parse_derives(tokens, pos, Level::Primary);
            }
        },
        Level::Primary => {
            if type_at(tokens, pos) == TokenType::LPAREN {
                lemma_parse_derives(tokens, pos + 1, Level::Ternary);
            }
        },
    }
}

/// Folding keeps to the grammar: where the operands folded so far make up an
/// expression of the level that begins at `start`, so does the whole.
pub proof fn lemma_fold_derives(tokens: Seq<Token>, start: int, level: Level, so_far: Expr)
    requires
        level is Equality || level is Comparison || level is Term || level is Factor,
        derives(tokens, level, so_far, start),
    ensures
        fold(tokens, start + so_far.width(), level, so_far) matches Ok(e) ==> derives(
            tokens,
            level,
            e,
            start,
        ),
    decreases left(tokens, start + so_far.width()), level.rank(), 0nat,
{
    let pos = start + so_far.width();
    if level.joins(type_at(tokens, pos)) {
        lemma_parse_derives(tokens, pos + 1, level.tighter());
        if let Ok(right) = parse(tokens, pos + 1, level.tighter()) {
            let joined = Expr::Binary(Box::new(so_far), Box::new(tokens[pos]), Box::new(right));
            assert(derives(tokens, level, joined, start));
            lemma_fold_derives(tokens, start, level, joined);
        }
    }
}

/// Where every `NUMBER` and every `STRING` among the tokens has a value, so
/// has every literal in the expression that the parser finds.
pub proof fn lemma_parse_valued(tokens: Seq<Token>, pos: int, level: Level)
    requires
        carry_values(tokens),
    ensures
        parse(tokens, pos, level) matches Ok(e) ==> e.valued(),
    decreases left(tokens, pos), level.rank(), 1nat,
{
    match level {
        Level::Ternary => {
            lemma_parse_valued(tokens, pos, Level::Equality);
            if let Ok(condition) = parse(tokens, pos, Level::Equality) {
                let question = pos + condition.width();
                if type_at(tokens, question) == TokenType::QUESTION {
                    lemma_parse_valued(tokens, question + 1, Level::Ternary);
                    if let Ok(then_branch) = parse(tokens, question + 1, Level::Ternary) {
                        let colon = question + 1 + then_branch.width();
                        if type_at(tokens, colon) == TokenType::COLON {
                            lemma_parse_valued(tokens, colon + 1, Level::Ternary);
                        }
                    }
                }
            }
        },
        Level::Equality | Level::Comparison | Level::Term | Level::Factor => {
            lemma_parse_valued(tokens, pos, level.tighter());
            if let Ok(first) = parse(tokens, pos, level.tighter()) {
                lemma_fold_valued(tokens, pos + first.width(), level, first);
            }
        },
        Level::Unary => {
            if prefixes(type_at(tokens, pos)) {
                lemma_parse_valued(tokens, pos + 1, Level::Unary);
            } else {
                lemma_parse_valued(tokens, pos, Level::Primary);
            }
        },
        Level::Primary => {
            if type_at(tokens, pos) == TokenType::LPAREN {
                lemma_parse_valued(tokens, pos + 1, Level::Ternary);
            }
        },
    }
}

/// Folding adds no literal without a value.
pub proof fn lemma_fold_valued(tokens: Seq<Token>, pos: int, level: Level, so_far: Expr)
    requires
        carry_values(tokens),
        so_far.valued(),
    ensures
        fold(tokens, pos, level, so_far) matches Ok(e) ==> e.valued(),
    decreases left(tokens, pos), level.rank(), 0nat,
{
    if level.joins(type_at(tokens, pos)) {
        lemma_parse_valued(tokens, pos + 1, level.tighter());
        if let Ok(right) = parse(tokens, pos + 1, level.tighter()) {
            let joined = Expr::Binary(Box::new(so_far), Box::new(tokens[pos]), Box::new(right));
            lemma_fold_valued(tokens, pos + 1 + right.width(), level, joined);
        }
    }
}

/// Parsing never leaves the tokens: among tokens that end with `EOF`, a
/// parser that begins on one of them stops on one of them, at or behind the
/// one it began on, and behind it where it has found an expression.
pub proof fn lemma_parse_stops(tokens: Seq<Token>, pos: int, level: Level)
    requires
        terminated(tokens),
        0 <= pos < tokens.len(),
    ensures
        pos <= stop(pos, parse(tokens, pos, level)) < tokens.len(),
        parse(tokens, pos, level) is Ok ==> pos < stop(pos, parse(tokens, pos, level)),
    decreases left(tokens, pos), level.rank(), 1nat,
{
    match level {
        Level::Ternary => {
            lemma_parse_stops(tokens, pos, Level::Equality);
            if let Ok(condition) = parse(tokens, pos, Level::Equality) {
                let question = pos + condition.width();
                if type_at(tokens, question) == TokenType::QUESTION {
                    lemma_parse_stops(tokens, question + 1, Level::Ternary);
                    if let Ok(then_branch) = parse(tokens, question + 1, Level::Ternary) {
                        let colon = question + 1 + then_branch.width();
                        if type_at(tokens, colon) == TokenType::COLON {
                            lemma_parse_stops(tokens, colon + 1, Level::Ternary);
                        }
                    }
                }
            }
        },
        Level::Equality | Level::Comparison | Level::Term | Level::Factor => {
            lemma_parse_stops(tokens, pos, level.tighter());
            if let Ok(first) = parse(tokens, pos, level.tighter()) {
                lemma_fold_stops(tokens, pos, level, first);
            }
        },
        Level::Unary => {
            if prefixes(type_at(tokens, pos)) {
                lemma_parse_stops(tokens, pos + 1, Level::Unary);
            } else {
                lemma_parse_stops(tokens, pos, Level::Primary);
            }
        },
        Level::Primary => {
            if type_at(tokens, pos) == TokenType::LPAREN {
                lemma_parse_stops(tokens, pos + 1, Level::Ternary);
            }
        },
    }
}

/// Folding never leaves the tokens either.
pub proof fn lemma_fold_stops(tokens: Seq<Token>, start: int, level: Level, so_far: Expr)
    requires
        terminated(tokens),
        0 <= start < start + so_far.width() < tokens.len(),
    ensures
        start + so_far.width() <= stop(
            start,
            fold(tokens, start + so_far.width(), level, so_far),
        ) < tokens.len(),
    decreases left(tokens, start + so_far.width()), level.rank(), 0nat,
{
    let pos = start + so_far.width();
    if level.joins(type_at(tokens, pos)) {
        lemma_parse_stops(tokens, pos + 1, level.tighter());
        if let Ok(right) = parse(tokens, pos + 1, level.tighter()) {
            let joined = Expr::Binary(Box::new(so_far), Box::new(tokens[pos]), Box::new(right));
            lemma_fold_stops(tokens, start, level, joined);
        }
    }
}

/// Whether a token of type `t` behind an expression of the given level makes
/// the expression go on: it is an operator of the level, or of one that binds
/// tighter.
pub open spec fn extends(level: Level, t: TokenType) -> bool {
    ||| level.rank() >= Level::Ternary.rank() && t == TokenType::QUESTION
    ||| level.rank() >= Level::Equality.rank() && Level::Equality.joins(t)
    ||| level.rank() >= Level::Comparison.rank() && Level::Comparison.joins(t)
    ||| level.rank() >= Level::Term.rank() && Level::Term.joins(t)
    ||| level.rank() >= Level::Factor.rank() && Level::Factor.joins(t)
}

/// The parser takes all it can: the token behind the expression it finds
/// does not make that expression go on.
pub proof fn lemma_parse_exhausts(tokens: Seq<Token>, pos: int, level: Level)
    ensures
        parse(tokens, pos, level) matches Ok(e) ==> !extends(
            level,
            type_at(tokens, pos + e.width()),
        ),
    decreases left(tokens, pos), level.rank(), 1nat,
{
    match level {
        Level::Ternary => {
            lemma_parse_exhausts(tokens, pos, Level::Equality);
            if let Ok(condition) = parse(tokens, pos, Level::Equality) {
                let question = pos + condition.width();
                if type_at(tokens, question) == TokenType::QUESTION {
                    lemma_parse_exhausts(tokens, question + 1, Level::Ternary);
                    if let Ok(then_branch) = parse(tokens, question + 1, Level::Ternary) {
                        let colon = question + 1 + then_branch.width();
                        if type_at(tokens, colon) == TokenType::COLON {
                            lemma_parse_exhausts(tokens, colon + 1, Level::Ternary);
                        }
                    }
                }
            }
        },
        Level::Equality | Level::Comparison | Level::Term | Level::Factor => {
            lemma_parse_exhausts(tokens, pos, level.tighter());
            if let Ok(first) = parse(tokens, pos, level.tighter()) {
                lemma_fold_exhausts(tokens, pos, level, first);
            }
        },
        Level::Unary => {
            if prefixes(type_at(tokens, pos)) {
                lemma_parse_exhausts(tokens, pos + 1, Level::Unary);
            } else {
                lemma_parse_exhausts(tokens, pos, Level::Primary);
            }
        },
        Level::Primary => {
            if type_at(tokens, pos) == TokenType::LPAREN {
                lemma_parse_exhausts(tokens, pos + 1, Level::Ternary);
            }
        },
    }
}

/// Folding takes all it can.
pub proof fn lemma_fold_exhausts(tokens: Seq<Token>, start: int, level: Level, so_far: Expr)
    requires
        level is Equality || level is Comparison || level is Term || level is Factor,
        !extends(level.tighter(), type_at(tokens, start + so_far.width())),
    ensures
        fold(tokens, start + so_far.width(), level, so_far) matches Ok(e) ==> !extends(
            level,
            type_at(tokens, start + e.width()),
        ),
    decreases left(tokens, start + so_far.width()), level.rank(), 0nat,
{
    let pos = start + so_far.width();
    if level.joins(type_at(tokens, pos)) {
        lemma_parse_exhausts(tokens, pos + 1, level.tighter());
        if let Ok(right) = parse(tokens, pos + 1, level.tighter()) {
            let joined = Expr::Binary(Box::new(so_far), Box::new(tokens[pos]), Box::new(right));
            lemma_fold_exhausts(tokens, start, level, joined);
        }
    }
}

/// The parser is complete: an expression that the grammar derives at a
/// position, and that the token behind it does not make go on, is the one the
/// parser finds there.
pub proof fn lemma_derived_is_parsed(tokens: Seq<Token>, pos: int, level: Level, e: Expr)
    requires
        derives(tokens, level, e, pos),
        !extends(level, type_at(tokens, pos + e.width())),
    ensures
        parse(tokens, pos, level) == Ok::<Expr, Failure>(e),
    decreases e, level.rank(), 1nat,
{
    match level {
        Level::Ternary => {
            if derives(tokens, Level::Equality, e, pos) {
                lemma_derived_is_parsed(tokens, pos, Level::Equality, e);
            } else if let Expr::Ternary(condition, then_branch, else_branch) = e {
                let question = pos + condition.width();
                let colon = question + 1 + then_branch.width();
                lemma_derived_is_parsed(tokens, pos, Level::Equality, *condition);
                lemma_derived_is_parsed(tokens, question + 1, Level::Ternary, *then_branch);
                lemma_derived_is_parsed(tokens, colon + 1, Level::Ternary, *else_branch);
            }
        },
        Level::Equality | Level::Comparison | Level::Term | Level::Factor => {
            lemma_derived_is_folded(tokens, pos, level, e);
        },
        Level::Unary => {
            if derives(tokens, Level::Primary, e, pos) {
                lemma_derived_is_parsed(tokens, pos, Level::Primary, e);
            } else if let Expr::Unary(_, operand) = e {
                lemma_derived_is_parsed(tokens, pos + 1, Level::Unary, *operand);
            }
        },
        Level::Primary => {
            if let Expr::Grouping(inner) = e {
                lemma_derived_is_parsed(tokens, pos + 1, Level::Ternary, *inner);
            }
        },
    }
}

/// An expression that the grammar derives at a binary level, and that no
/// operator of a tighter level makes go on, is what the parser has folded
/// when it has come to the end of it.
pub proof fn lemma_derived_is_folded(tokens: Seq<Token>, pos: int, level: Level, e: Expr)
    requires
        level is Equality || level is Comparison || level is Term || level is Factor,
        derives(tokens, level, e, pos),
        !extends(level.tighter(), type_at(tokens, pos + e.width())),
    ensures
        parse(tokens, pos, level) == fold(tokens, pos + e.width(), level, e),
    decreases e, level.rank(), 0nat,
{
    if derives(tokens, level.tighter(), e, pos) {
        lemma_derived_is_parsed(tokens, pos, level.tighter(), e);
    } else if let Expr::Binary(first, _, second) = e {
        lemma_derived_is_folded(tokens, pos, level, *first);
        lemma_derived_is_parsed(tokens, pos + first.width() + 1, level.tighter(), *second);
    }
}

/// What the parser finds, said with the grammar alone: it finds `e` at a
/// position if and only if the grammar derives `e` there and the token
/// behind `e` does not make it go on.
pub proof fn lemma_parse_is_longest_derivation(
    tokens: Seq<Token>,
    pos: int,
    level: Level,
    e: Expr,
)
    ensures
        parse(tokens, pos, level) == Ok::<Expr, Failure>(e) <==> derives(tokens, level, e, pos)
            && !extends(level, type_at(tokens, pos + e.width())),
{
    if parse(tokens, pos, level) == Ok::<Expr, Failure>(e) {
        lemma_parse_derives(tokens, pos, level);
        lemma_parse_exhausts(tokens, pos, level);
    }
    if derives(tokens, level, e, pos) && !extends(level, type_at(tokens, pos + e.width())) {
        lemma_derived_is_parsed(tokens, pos, level, e);
    }
}

} // verus!
