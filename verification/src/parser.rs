//! The recursive-descent parser: one method for each rule of the grammar.
use crate::ast::Expr;
use crate::grammar::{
    carry_values, fold, left, lemma_parse_valued, parse, stop, terminated, type_at, Failure,
    Level,
};
use crate::lexical::{lemma_lex_ends, lemma_lex_values, lex, well_valued};
use crate::text::{decimal, decimal_text};
use crate::token::{token_views, Literal, Token, TokenType};
use vstd::prelude::*;
use vstd::string::StringExecFns;

verus! {

/// A syntax error: the token that did not fit, and what was expected there.
#[derive(Debug)]
pub struct ParseError {
    pub token: Token,
    pub message: String,
}

impl ParseError {
    /// Whether this error is the one that `failure` describes among `tokens`.
    pub open spec fn reports(self, tokens: Seq<Token>, failure: Failure) -> bool {
        &&& 0 <= failure.at < tokens.len()
        &&& self.token == tokens[failure.at]
        &&& self.message@ == failure.message
    }

    /// The error as a line of text: the message, then the line of the token
    /// or, where the token is the end token, the words `at end.`
    pub open spec fn rendered(self) -> Seq<char> {
        if self.token.token_type == TokenType::EOF {
            self.message@ + " at end."@
        } else {
            self.message@ + " at line "@ + decimal(self.token.line as nat)
        }
    }

    /// The error as a line of text.
    pub fn to_string(&self) -> (line: String)
        ensures
            line@ == self.rendered(),
    {
        let mut line = self.message.clone();
        if self.token.token_type == TokenType::EOF {
            line.append(" at end.");
        } else {
            line.append(" at line ");
            let number = decimal_text(self.token.line);
            line.append(number.as_str());
        }
        line
    }
}

/// Whether `result` is what `outcome` says it has to be.
pub open spec fn agrees(
    result: Result<Expr, ParseError>,
    tokens: Seq<Token>,
    outcome: Result<Expr, Failure>,
) -> bool {
    match outcome {
        Ok(e) => result == Ok::<Expr, ParseError>(e),
        Err(failure) => result is Err && result->Err_0.reports(tokens, failure),
    }
}

/// Whether the token at `pos` ends the skipping that follows a syntax error:
/// the input ends there, or a statement has just ended, or one begins.
pub open spec fn resumes(tokens: Seq<Token>, pos: int) -> bool {
    ||| type_at(tokens, pos) == TokenType::EOF
    ||| type_at(tokens, pos - 1) == TokenType::SEMICOLON
    ||| begins_statement(type_at(tokens, pos))
}

/// Whether a statement begins with a token of this type.
pub open spec fn begins_statement(t: TokenType) -> bool {
    ||| t == TokenType::CLASS
    ||| t == TokenType::FOR
    ||| t == TokenType::FUN
    ||| t == TokenType::IF
    ||| t == TokenType::PRINT
    ||| t == TokenType::RETURN
    ||| t == TokenType::VAR
    ||| t == TokenType::WHILE
}

/// The tokens of any source can be parsed: they end with `EOF`, and every
/// `NUMBER` and every `STRING` among them has a value. So the expression
/// found among them has a value in every literal.
pub proof fn lemma_scanned_tokens_parse(src: Seq<u8>, tokens: Seq<Token>, pos: int)
    requires
        token_views(tokens) == lex(src),
    ensures
        terminated(tokens),
        carry_values(tokens),
        parse(tokens, pos, Level::Ternary) matches Ok(e) ==> e.valued(),
{
    lemma_lex_ends(src);
    lemma_lex_values(src);
    assert(tokens.len() == lex(src).len());
    assert(tokens.last()@ == lex(src).last());
    assert forall|i: int|
        0 <= i < tokens.len() && ((#[trigger] tokens[i]).token_type == TokenType::NUMBER
            || tokens[i].token_type == TokenType::STRING) implies tokens[i].literal
        != Literal::Absent by {
        assert(tokens[i]@ == lex(src)[i]);
        assert(well_valued(lex(src)[i]));
    }
    lemma_parse_valued(tokens, pos, Level::Ternary);
}

/// A cursor over a token sequence.
pub struct Parser {
    tokens: Vec<Token>,
    current: usize,
}

impl Parser {
    /// The tokens that are parsed.
    pub closed spec fn tokens(&self) -> Seq<Token> {
        self.tokens@
    }

    /// The index of the token that is looked at.
    pub closed spec fn position(&self) -> int {
        self.current as int
    }

    /// The tokens end with `EOF`, and the cursor is on one of them.
    pub closed spec fn wf(&self) -> bool {
        &&& terminated(self.tokens@)
        &&& self.current < self.tokens@.len()
    }

    /// `self` is `pre` after it has parsed at `level` and returned `result`.
    pub open spec fn parsed(
        &self,
        pre: &Parser,
        level: Level,
        result: Result<Expr, ParseError>,
    ) -> bool {
        let outcome = parse(pre.tokens(), pre.position(), level);
        &&& self.wf()
        &&& self.tokens() == pre.tokens()
        &&& agrees(result, pre.tokens(), outcome)
        &&& self.position() == stop(pre.position(), outcome)
    }

    /// A parser at the first of `tokens`.
    #[must_use]
    pub fn new(tokens: Vec<Token>) -> (parser: Self)
        requires
            terminated(tokens@),
        ensures
            parser.wf(),
            parser.tokens() == tokens@,
            parser.position() == 0,
    {
        Self { tokens, current: 0 }
    }

    /// Parses an expression and gives its tree, or nothing where there is a
    /// syntax error.
    pub fn parse(&mut self) -> (tree: Option<Expr>)
        requires
            old(self).wf(),
        ensures
            final(self).wf(),
            final(self).tokens() == old(self).tokens(),
            tree == match parse(old(self).tokens(), old(self).position(), Level::Ternary) {
                Ok(e) => Some(e),
                Err(_) => None,
            },
            final(self).position() == stop(
                old(self).position(),
                parse(old(self).tokens(), old(self).position(), Level::Ternary),
            ),
    {
        let expr = self.expression();
        match expr {
            Ok(e) => Some(e),
            Err(_) => None,
        }
    }

    /// Parses an expression.
    pub fn expression(&mut self) -> (result: Result<Expr, ParseError>)
        requires
            old(self).wf(),
        ensures
            final(self).parsed(old(self), Level::Ternary, result),
        decreases left(old(self).tokens(), old(self).position()), 7nat,
    {
        self.ternary()
    }

    /// Parses a choice between two expressions, or what binds tighter.
    pub fn ternary(&mut self) -> (result: Result<Expr, ParseError>)
        requires
            old(self).wf(),
        ensures
            final(self).parsed(old(self), Level::Ternary, result),
        decreases left(old(self).tokens(), old(self).position()), Level::Ternary.rank(),
    {
        let condition = self.equality()?;
        if self.match_op(vec![TokenType::QUESTION]) {
            let then_branch = self.expression()?;
            self.consume(TokenType::COLON, "Expected ':' after expression")?;
            let else_branch = self.ternary()?;
            return Ok(
                Expr::Ternary(Box::new(condition), Box::new(then_branch), Box::new(else_branch)),
            );
        }
        Ok(condition)
    }

    /// Parses a chain of `!=` and `==`, or what binds tighter.
    #[verifier::loop_isolation(false)]
    pub fn equality(&mut self) -> (result: Result<Expr, ParseError>)
        requires
            old(self).wf(),
        ensures
            final(self).parsed(old(self), Level::Equality, result),
        decreases left(old(self).tokens(), old(self).position()), Level::Equality.rank(),
    {
        let ghost tokens = self.tokens();
        let ghost start = self.position();
        let mut expr = self.comparison()?;
        while self.match_op(vec![TokenType::BANG_EQ, TokenType::EQ_EQ])
            invariant
                self.wf(),
                self.tokens() == tokens,
                self.position() == start + expr.width(),
                fold(tokens, self.position(), Level::Equality, expr) == parse(
                    tokens,
                    start,
                    Level::Equality,
                ),
            decreases left(tokens, self.position()),
        {
            let op = self.previous();
            let right = self.comparison()?;
            expr = Expr::Binary(Box::new(expr), Box::new(op), Box::new(right));
        }
        Ok(expr)
    }

    /// Parses a chain of `>`, `>=`, `<` and `<=`, or what binds tighter.
    #[verifier::loop_isolation(false)]
    pub fn comparison(&mut self) -> (result: Result<Expr, ParseError>)
        requires
            old(self).wf(),
        ensures
            final(self).parsed(old(self), Level::Comparison, result),
        decreases left(old(self).tokens(), old(self).position()), Level::Comparison.rank(),
    {
        let ghost tokens = self.tokens();
        let ghost start = self.position();
        let mut expr = self.term()?;
        while self.match_op(
            vec![TokenType::GT, TokenType::GT_EQ, TokenType::LT, TokenType::LT_EQ],
        )
            invariant
                self.wf(),
                self.tokens() == tokens,
                self.position() == start + expr.width(),
                fold(tokens, self.position(), Level::Comparison, expr) == parse(
                    tokens,
                    start,
                    Level::Comparison,
                ),
            decreases left(tokens, self.position()),
        {
            let op = self.previous();
            let right = self.term()?;
            expr = Expr::Binary(Box::new(expr), Box::new(op), Box::new(right));
        }
        Ok(expr)
    }

    /// Parses a chain of `-` and `+`, or what binds tighter.
    #[verifier::loop_isolation(false)]
    pub fn term(&mut self) -> (result: Result<Expr, ParseError>)
        requires
            old(self).wf(),
        ensures
            final(self).parsed(old(self), Level::Term, result),
        decreases left(old(self).tokens(), old(self).position()), Level::Term.rank(),
    {
        let ghost tokens = self.tokens();
        let ghost start = self.position();
        let mut expr = self.factor()?;
        while self.match_op(vec![TokenType::MINUS, TokenType::PLUS])
            invariant
                self.wf(),
                self.tokens() == tokens,
                self.position() == start + expr.width(),
                fold(tokens, self.position(), Level::Term, expr) == parse(
                    tokens,
                    start,
                    Level::Term,
                ),
            decreases left(tokens, self.position()),
        {
            let op = self.previous();
            let right = self.factor()?;
            expr = Expr::Binary(Box::new(expr), Box::new(op), Box::new(right));
        }
        Ok(expr)
    }

    /// Parses a chain of `/` and `*`, or what binds tighter.
    #[verifier::loop_isolation(false)]
    pub fn factor(&mut self) -> (result: Result<Expr, ParseError>)
        requires
            old(self).wf(),
        ensures
            final(self).parsed(old(self), Level::Factor, result),
        decreases left(old(self).tokens(), old(self).position()), Level::Factor.rank(),
    {
        let ghost tokens = self.tokens();
        let ghost start = self.position();
        let mut expr = self.unary()?;
        while self.match_op(vec![TokenType::SLASH, TokenType::STAR])
            invariant
                self.wf(),
                self.tokens() == tokens,
                self.position() == start + expr.width(),
                fold(tokens, self.position(), Level::Factor, expr) == parse(
                    tokens,
                    start,
                    Level::Factor,
                ),
            decreases left(tokens, self.position()),
        {
            let op = self.previous();
            let right = self.unary()?;
            expr = Expr::Binary(Box::new(expr), Box::new(op), Box::new(right));
        }
        Ok(expr)
    }

    /// Parses an operand with any number of `!` and `-` before it.
    pub fn unary(&mut self) -> (result: Result<Expr, ParseError>)
        requires
            old(self).wf(),
        ensures
            final(self).parsed(old(self), Level::Unary, result),
        decreases left(old(self).tokens(), old(self).position()), Level::Unary.rank(),
    {
        if self.match_op(vec![TokenType::BANG, TokenType::MINUS]) {
            let op = self.previous();
            let right = self.unary()?;
            return Ok(Expr::Unary(Box::new(op), Box::new(right)));
        }
        self.primary()
    }

    /// Parses a literal or an expression in parentheses. Where neither
    /// stands at the cursor, the cursor stays.
    pub fn primary(&mut self) -> (result: Result<Expr, ParseError>)
        requires
            old(self).wf(),
        ensures
            final(self).parsed(old(self), Level::Primary, result),
        decreases left(old(self).tokens(), old(self).position()), Level::Primary.rank(),
    {
        if self.match_op(vec![TokenType::FALSE]) {
            return Ok(Expr::Literal(Literal::Bool(false)));
        }
        if self.match_op(vec![TokenType::TRUE]) {
            return Ok(Expr::Literal(Literal::Bool(true)));
        }
        if self.match_op(vec![TokenType::NIL]) {
            return Ok(Expr::Literal(Literal::Nil));
        }
        if self.match_op(vec![TokenType::NUMBER, TokenType::STRING]) {
            return Ok(Expr::Literal(self.previous().literal));
        }
        if self.match_op(vec![TokenType::LPAREN]) {
            let expr = self.expression()?;
            self.consume(TokenType::RPAREN, "Expected ')' after expression")?;
            return Ok(Expr::Grouping(Box::new(expr)));
        }
        Err(ParseError { token: self.peek(), message: "Expected expression".to_owned() })
    }

    /// Steps over the token at the cursor if it has the type asked for, and
    /// complains with `message` if it has not.
    pub fn consume(&mut self, token_type: TokenType, message: &str) -> (result: Result<
        Token,
        ParseError,
    >)
        requires
            old(self).wf(),
        ensures
            final(self).wf(),
            final(self).tokens() == old(self).tokens(),
            token_type != TokenType::EOF && type_at(old(self).tokens(), old(self).position())
                == token_type ==> {
                &&& result == Ok::<Token, ParseError>(old(self).tokens()[old(self).position()])
                &&& final(self).position() == old(self).position() + 1
            },
            !(token_type != TokenType::EOF && type_at(old(self).tokens(), old(self).position())
                == token_type) ==> {
                &&& result is Err
                &&& result->Err_0.token == old(self).tokens()[old(self).position()]
                &&& result->Err_0.message@ == message@
                &&& final(self).position() == old(self).position()
            },
    {
        if self.check(token_type) {
            return Ok(self.advance());
        }
        Err(ParseError { token: self.peek(), message: message.to_owned() })
    }

    /// Skips to where parsing can go on after a syntax error: over the token
    /// at the cursor, and then on to the first token at which a statement
    /// has just ended or begins. At the end of the input the cursor stays.
    #[verifier::loop_isolation(false)]
    pub fn synchronize(&mut self)
        requires
            old(self).wf(),
        ensures
            final(self).wf(),
            final(self).tokens() == old(self).tokens(),
            type_at(old(self).tokens(), old(self).position()) == TokenType::EOF
                ==> final(self).position() == old(self).position(),
            type_at(old(self).tokens(), old(self).position()) != TokenType::EOF ==> {
                &&& old(self).position() < final(self).position()
                &&& resumes(final(self).tokens(), final(self).position())
                &&& forall|i: int|
                    old(self).position() < i < final(self).position() ==> !resumes(
                        old(self).tokens(),
                        i,
                    )
            },
    {
        if self.is_at_end() {
            return ;
        }
        let ghost tokens = self.tokens();
        let ghost start = self.position();
        self.advance();
        while !self.is_at_end()
            invariant
                self.wf(),
                self.tokens() == tokens,
                start < self.position(),
                forall|i: int| start < i < self.position() ==> !resumes(tokens, i),
            decreases left(tokens, self.position()),
        {
            if self.previous().token_type == TokenType::SEMICOLON {
                return ;
            }
            match self.peek().token_type {
                TokenType::CLASS
                | TokenType::FOR
                | TokenType::FUN
                | TokenType::IF
                | TokenType::PRINT
                | TokenType::RETURN
                | TokenType::VAR
                | TokenType::WHILE => return ,
                _ => (),
            }
            self.advance();
        }
    }

    /// Steps over the token at the cursor if its type is among those asked
    /// for.
    pub fn match_op(&mut self, token_types: Vec<TokenType>) -> (matched: bool)
        requires
            old(self).wf(),
        ensures
            final(self).wf(),
            final(self).tokens() == old(self).tokens(),
            matched == (type_at(old(self).tokens(), old(self).position()) != TokenType::EOF
                && token_types@.contains(type_at(old(self).tokens(), old(self).position()))),
            final(self).position() == old(self).position() + if matched {
                1int
            } else {
                0int
            },
    {
        let mut i: usize = 0;
        while i < token_types.len()
            invariant
                self.wf(),
                *self == *old(self),
                i <= token_types@.len(),
                forall|j: int|
                    0 <= j < i ==> !(type_at(self.tokens(), self.position()) != TokenType::EOF
                        && token_types@[j] == type_at(self.tokens(), self.position())),
            decreases token_types@.len() - i,
        {
            if self.check(token_types[i]) {
                self.advance();
                return true;
            }
            i += 1;
        }
        false
    }

    /// Whether the token at the cursor has the type asked for. At the end of
    /// the input no type is found.
    pub fn check(&self, token_type: TokenType) -> (found: bool)
        requires
            self.wf(),
        ensures
            found == (type_at(self.tokens(), self.position()) != TokenType::EOF && type_at(
                self.tokens(),
                self.position(),
            ) == token_type),
    {
        if self.is_at_end() {
            return false;
        }
        self.tokens[self.current].token_type == token_type
    }

    /// Moves the cursor on by one token, unless it is at the end of the
    /// input, and gives the token before the cursor.
    pub fn advance(&mut self) -> (token: Token)
        requires
            old(self).wf(),
            old(self).position() > 0 || type_at(old(self).tokens(), old(self).position())
                != TokenType::EOF,
        ensures
            final(self).wf(),
            final(self).tokens() == old(self).tokens(),
            final(self).position() == old(self).position() + if type_at(
                old(self).tokens(),
                old(self).position(),
            ) == TokenType::EOF {
                0int
            } else {
                1int
            },
            token == final(self).tokens()[final(self).position() - 1],
    {
        if !self.is_at_end() {
            assert(self.current < self.tokens.len());
            self.current += 1;
        }
        self.previous()
    }

    /// Whether the cursor is at the end of the input.
    pub fn is_at_end(&self) -> (at_end: bool)
        requires
            self.wf(),
        ensures
            at_end == (type_at(self.tokens(), self.position()) == TokenType::EOF),
    {
        self.tokens[self.current].token_type == TokenType::EOF
    }

    /// The token at the cursor.
    pub fn peek(&self) -> (token: Token)
        requires
            self.wf(),
        ensures
            token == self.tokens()[self.position()],
    {
        self.tokens[self.current].clone()
    }

    /// The token before the cursor.
    pub fn previous(&self) -> (token: Token)
        requires
            self.wf(),
            self.position() > 0,
        ensures
            token == self.tokens()[self.position() - 1],
    {
        self.tokens[self.current - 1].clone()
    }
}

} // verus!
