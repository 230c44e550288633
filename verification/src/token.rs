use vstd::prelude::*;

verus! {

/// The closed set of lexical classes a token can belong to.
#[allow(non_camel_case_types)]
#[derive(Debug, PartialEq, Eq, Clone, Copy, Structural)]
pub enum TokenType {
    LPAREN,
    RPAREN,
    LBRACE,
    RBRACE,
    COMMA,
    DOT,
    MINUS,
    PLUS,
    SEMICOLON,
    STAR,
    SLASH,
    COLON,
    BANG,
    BANG_EQ,
    EQ,
    EQ_EQ,
    LT,
    LT_EQ,
    GT,
    GT_EQ,
    QUESTION,
    STRING,
    NUMBER,
    IDENTIFIER,
    AND,
    CLASS,
    ELSE,
    FALSE,
    FUN,
    FOR,
    IF,
    NIL,
    OR,
    PRINT,
    RETURN,
    SUPER,
    THIS,
    TRUE,
    VAR,
    WHILE,
    EOF,
}

/// The value a token carries besides its text.
///
/// A number is kept as the decimal numeral that was written, digit for digit,
/// so that no precision is lost before a consumer decides how to represent it.
#[derive(Debug, PartialEq)]
pub enum Literal {
    String(String),
    Number(String),
    Bool(bool),
    Nil,
    /// No value attached: punctuation, operators, identifiers and keywords.
    Absent,
}

/// Mathematical model of a [`Literal`].
pub enum LiteralView {
    String(Seq<char>),
    Number(Seq<char>),
    Bool(bool),
    Nil,
    Absent,
}

impl View for Literal {
    type V = LiteralView;

    open spec fn view(&self) -> LiteralView {
        match *self {
            Literal::String(s) => LiteralView::String(s@),
            Literal::Number(n) => LiteralView::Number(n@),
            Literal::Bool(b) => LiteralView::Bool(b),
            Literal::Nil => LiteralView::Nil,
            Literal::Absent => LiteralView::Absent,
        }
    }
}

impl Clone for Literal {
    fn clone(&self) -> (res: Self)
        ensures
            res == *self,
    {
        match self {
            Literal::String(s) => Literal::String(s.clone()),
            Literal::Number(n) => Literal::Number(n.clone()),
            Literal::Bool(b) => Literal::Bool(*b),
            Literal::Nil => Literal::Nil,
            Literal::Absent => Literal::Absent,
        }
    }
}

/// A classified, positioned unit of source text.
#[derive(Debug, PartialEq)]
pub struct Token {
    pub lexeme: String,
    pub token_type: TokenType,
    pub literal: Literal,
    pub line: usize,
}

/// Mathematical model of a [`Token`].
pub struct TokenView {
    pub lexeme: Seq<char>,
    pub token_type: TokenType,
    pub literal: LiteralView,
    pub line: nat,
}

impl View for Token {
    type V = TokenView;

    open spec fn view(&self) -> TokenView {
        TokenView {
            lexeme: self.lexeme@,
            token_type: self.token_type,
            literal: self.literal@,
            line: self.line as nat,
        }
    }
}

impl Clone for Token {
    fn clone(&self) -> (res: Self)
        ensures
            res == *self,
    {
        Token {
            lexeme: self.lexeme.clone(),
            token_type: self.token_type,
            literal: self.literal.clone(),
            line: self.line,
        }
    }
}

/// The models of a sequence of tokens, in order.
pub open spec fn token_views(tokens: Seq<Token>) -> Seq<TokenView> {
    tokens.map_values(|t: Token| t@)
}

} // verus!
