//! The scanner: one forward pass over the source that gives its tokens.
use crate::diagnostic::{diagnostic_views, Diagnostic, DiagnosticView, Fault};
use crate::lexical::{
    ascending, byte_at, comment_gap, complaints, diagnostic_at, diagnostics_from, digit_run, gap, is_alpha,
    is_alphanumeric, is_digit, items, last_start, lemma_lexeme_bounds, lemma_line_grows,
    lemma_newlines_bound, lex, lexeme_at, line_at,
    operator, punctuation, text, token_at, token_types, tokens_from, word_run, word_type,
};
use crate::text::{same_text, slice_text};
use crate::token::{token_views, Literal, LiteralView, Token, TokenType, TokenView};
use vstd::prelude::*;
use vstd::string::StringSliceAdditionalSpecFns;

verus! {

/// A cursor over a source text, with the tokens and complaints gathered so
/// far.
pub struct Scanner<'a> {
    source: &'a str,
    start: usize,
    current: usize,
    line: usize,
    tokens: Vec<Token>,
    diagnostics: Vec<Diagnostic>,
}

/// The token of a punctuation mark that is a lexeme by itself.
fn punctuation_type(b: u8) -> (token_type: Option<TokenType>)
    ensures
        token_type == punctuation(b),
{
    if b == '(' as u8 {
        Some(TokenType::LPAREN)
    } else if b == ')' as u8 {
        Some(TokenType::RPAREN)
    } else if b == '{' as u8 {
        Some(TokenType::LBRACE)
    } else if b == '}' as u8 {
        Some(TokenType::RBRACE)
    } else if b == ',' as u8 {
        Some(TokenType::COMMA)
    } else if b == '.' as u8 {
        Some(TokenType::DOT)
    } else if b == '-' as u8 {
        Some(TokenType::MINUS)
    } else if b == '+' as u8 {
        Some(TokenType::PLUS)
    } else if b == ';' as u8 {
        Some(TokenType::SEMICOLON)
    } else if b == '*' as u8 {
        Some(TokenType::STAR)
    } else if b == '?' as u8 {
        Some(TokenType::QUESTION)
    } else if b == ':' as u8 {
        Some(TokenType::COLON)
    } else {
        None
    }
}

/// The two tokens that an operator's first byte can begin.
fn operator_types(b: u8) -> (pair: Option<(TokenType, TokenType)>)
    ensures
        pair == operator(b),
{
    if b == '!' as u8 {
        Some((TokenType::BANG_EQ, TokenType::BANG))
    } else if b == '=' as u8 {
        Some((TokenType::EQ_EQ, TokenType::EQ))
    } else if b == '<' as u8 {
        Some((TokenType::LT_EQ, TokenType::LT))
    } else if b == '>' as u8 {
        Some((TokenType::GT_EQ, TokenType::GT))
    } else {
        None
    }
}

impl<'a> Scanner<'a> {
    /// The bytes of the source.
    pub closed spec fn source(&self) -> Seq<u8> {
        self.source.spec_bytes()
    }

    /// Where the stretch began that was scanned last.
    pub closed spec fn mark(&self) -> int {
        self.start as int
    }

    /// How many bytes have been read.
    pub closed spec fn cursor(&self) -> int {
        self.current as int
    }

    /// The line the scanner is on.
    pub closed spec fn line_number(&self) -> nat {
        self.line as nat
    }

    /// The tokens given so far.
    pub closed spec fn emitted(&self) -> Seq<TokenView> {
        token_views(self.tokens@)
    }

    /// The complaints made so far.
    pub closed spec fn raised(&self) -> Seq<DiagnosticView> {
        diagnostic_views(self.diagnostics@)
    }

    /// The cursor lies inside the source, behind the mark, and the source is
    /// short enough for its lines to be counted.
    spec fn wf(&self) -> bool {
        self.start <= self.current <= self.source().len() < usize::MAX
    }

    /// The scanner stands between two lexemes, on the line that the bytes
    /// read so far have brought it to.
    pub closed spec fn at_rest(&self) -> bool {
        &&& self.wf()
        &&& self.line == line_at(self.source(), self.current as int)
        &&& self.in_order()
    }

    /// The lines of the tokens given so far never go down, and all lie
    /// between the first line and the line the scanner is on.
    spec fn in_order(&self) -> bool {
        &&& ascending(self.emitted())
        &&& forall|i: int|
            0 <= i < self.emitted().len() ==> 1 <= (#[trigger] self.emitted()[i]).line
                <= self.line
    }

    /// Nothing has been scanned yet.
    pub open spec fn fresh(&self) -> bool {
        &&& self.at_rest()
        &&& self.mark() == 0
        &&& self.cursor() == 0
        &&& self.emitted() == Seq::<TokenView>::empty()
        &&& self.raised() == Seq::<DiagnosticView>::empty()
    }

    /// The scanner has read the first byte of the lexeme at the mark, which
    /// is no line feed, and nothing else of it.
    spec fn begun(&self) -> bool {
        &&& self.wf()
        &&& self.current == self.start + 1
        &&& self.line == line_at(self.source(), self.current as int)
        &&& self.line == line_at(self.source(), self.start as int)
    }

    /// `self` is `pre` after the lexeme at the mark of `pre` has been
    /// scanned.
    spec fn stepped(&self, pre: &Scanner<'a>) -> bool {
        let src = pre.source();
        let lexeme = lexeme_at(src, pre.start as int);
        &&& self.wf()
        &&& self.source == pre.source
        &&& self.start == pre.start
        &&& self.current == pre.start + lexeme.len
        &&& self.line == line_at(src, self.current as int)
        &&& self.emitted() == pre.emitted() + items(token_at(src, pre.start as int))
        &&& self.raised() == pre.raised() + items(diagnostic_at(src, pre.start as int))
    }

    /// A scanner at the beginning of `source`.
    #[must_use]
    pub fn new(source: &'a str) -> (scanner: Self)
        requires
            source.spec_bytes().len() < usize::MAX,
        ensures
            scanner.fresh(),
            scanner.source() == source.spec_bytes(),
            scanner.line_number() == 1,
    {
        let scanner = Scanner {
            source,
            start: 0,
            current: 0,
            line: 1,
            tokens: Vec::new(),
            diagnostics: Vec::new(),
        };
        assert(scanner.emitted() =~= Seq::<TokenView>::empty());
        assert(scanner.raised() =~= Seq::<DiagnosticView>::empty());
        scanner
    }

    /// Scans what is left of the source and returns every token given so
    /// far, the end token last.
    pub fn scan(&mut self) -> (tokens: Vec<Token>)
        requires
            old(self).at_rest(),
        ensures
            final(self).at_rest(),
            final(self).source() == old(self).source(),
            final(self).cursor() == final(self).source().len(),
            final(self).mark() == last_start(
                old(self).source(),
                old(self).cursor(),
                old(self).mark(),
            ),
            final(self).line_number() == line_at(final(self).source(), final(self).cursor()),
            final(self).emitted() == old(self).emitted() + tokens_from(
                old(self).source(),
                old(self).cursor(),
                old(self).mark(),
            ),
            final(self).raised() == old(self).raised() + diagnostics_from(
                old(self).source(),
                old(self).cursor(),
            ),
            token_views(tokens@) == final(self).emitted(),
            tokens@.len() >= 1,
            tokens@.last().token_type == TokenType::EOF,
            forall|i: int| 0 <= i < tokens@.len() ==> 1 <= (#[trigger] tokens@[i]).line,
            forall|i: int, j: int|
                0 <= i <= j < tokens@.len() ==> (#[trigger] tokens@[i]).line
                    <= (#[trigger] tokens@[j]).line,
            old(self).fresh() ==> {
                &&& token_views(tokens@) == lex(final(self).source())
                &&& final(self).raised() == complaints(final(self).source())
            },
    {
        let ghost src = self.source();
        let ghost goal_tokens = self.emitted() + tokens_from(
            src,
            self.current as int,
            self.start as int,
        );
        let ghost goal_diagnostics = self.raised() + diagnostics_from(src, self.current as int);
        let ghost goal_mark = last_start(src, self.current as int, self.start as int);
        while !self.is_at_end()
            invariant
                self.at_rest(),
                self.source() == src,
                self.emitted() + tokens_from(src, self.current as int, self.start as int)
                    == goal_tokens,
                self.raised() + diagnostics_from(src, self.current as int) == goal_diagnostics,
                last_start(src, self.current as int, self.start as int) == goal_mark,
            decreases src.len() - self.current,
        {
            self.start = self.current;
            let ghost begin = *self;
            let b = self.advance();
            proof {
                lemma_newlines_bound(src, begin.current as int);
            }
            if let Some(token_type) = punctuation_type(b) {
                self.add_token(token_type);
            } else if let Some((with_equals, alone)) = operator_types(b) {
                self.operator(with_equals, alone);
            } else if b == '/' as u8 {
                self.slash();
            } else if b == ' ' as u8 || b == '\r' as u8 || b == '\t' as u8 {
                // Blanks separate lexemes and give nothing.
            } else if b == '\n' as u8 {
                self.line += 1;
            } else if b == '"' as u8 {
                self.string();
            } else if self.is_digit(b) {
                self.number();
            } else if self.is_alpha(b) {
                self.identifier();
            } else {
                self.diagnostics.push(
                    Diagnostic { fault: Fault::IllegalCharacter, line: self.line },
                );
            }
            assert(self.emitted() =~= begin.emitted() + items(token_at(src, begin.start as int)));
            assert(self.raised() =~= begin.raised() + items(
                diagnostic_at(src, begin.start as int),
            ));
            proof {
                lemma_lexeme_bounds(src, begin.start as int);
                lemma_line_grows(src, begin.start as int, self.current as int);
            }
            assert(self.in_order());
            assert(self.emitted() + tokens_from(src, self.current as int, self.start as int)
                =~= goal_tokens);
            assert(self.raised() + diagnostics_from(src, self.current as int)
                =~= goal_diagnostics);
        }
        self.add_token(TokenType::EOF);
        assert(self.emitted() =~= goal_tokens);
        assert(self.emitted().last().token_type == TokenType::EOF);
        assert(self.raised() =~= goal_diagnostics);
        assert(self.in_order());
        let tokens = self.tokens.clone();
        assert(tokens@ =~= self.tokens@);
        assert forall|i: int| 0 <= i < tokens@.len() implies self.emitted()[i].line
            == (#[trigger] tokens@[i]).line by {}
        tokens
    }

    /// The complaints made so far, in the order in which they were made.
    pub fn diagnostics(&self) -> (diagnostics: &Vec<Diagnostic>)
        ensures
            diagnostic_views(diagnostics@) == self.raised(),
    {
        &self.diagnostics
    }

    /// Gives a token without a value for the text between mark and cursor.
    fn add_token(&mut self, token_type: TokenType)
        requires
            old(self).wf(),
        ensures
            final(self).wf(),
            *final(self) == (Scanner { tokens: final(self).tokens, ..*old(self) }),
            final(self).emitted() == old(self).emitted().push(
                TokenView {
                    lexeme: text(old(self).source(), old(self).mark(), old(self).cursor()),
                    token_type,
                    literal: LiteralView::Absent,
                    line: old(self).line_number(),
                },
            ),
    {
        self.add_token_literal(token_type, None);
    }

    /// Gives a token for the text between mark and cursor, with the value
    /// handed in, if any.
    fn add_token_literal(&mut self, token_type: TokenType, literal: Option<Literal>)
        requires
            old(self).wf(),
        ensures
            final(self).wf(),
            *final(self) == (Scanner { tokens: final(self).tokens, ..*old(self) }),
            final(self).emitted() == old(self).emitted().push(
                TokenView {
                    lexeme: text(old(self).source(), old(self).mark(), old(self).cursor()),
                    token_type,
                    literal: match literal {
                        Some(l) => l@,
                        None => LiteralView::Absent,
                    },
                    line: old(self).line_number(),
                },
            ),
    {
        let lexeme = slice_text(self.source, self.start, self.current);
        let literal = match literal {
            Some(l) => l,
            None => Literal::Absent,
        };
        let token = Token { lexeme, token_type, literal, line: self.line };
        self.tokens.push(token);
        assert(self.emitted() =~= old(self).emitted().push(token@));
    }

    /// Whether the whole source has been read.
    fn is_at_end(&self) -> (at_end: bool)
        requires
            self.wf(),
        ensures
            at_end == (self.cursor() >= self.source().len()),
    {
        self.current >= self.source.len()
    }

    /// Reads one byte.
    fn advance(&mut self) -> (b: u8)
        requires
            old(self).wf(),
            old(self).cursor() < old(self).source().len(),
        ensures
            final(self).wf(),
            *final(self) == (Scanner { current: (old(self).current + 1) as usize, ..*old(self) }),
            b == old(self).source()[old(self).cursor()],
            line_at(final(self).source(), final(self).cursor()) == line_at(
                old(self).source(),
                old(self).cursor(),
            ) + if b == '\n' as u8 {
                1nat
            } else {
                0nat
            },
    {
        let prev = self.current;
        self.current += 1;
        self.source.as_bytes()[prev]
    }

    /// Reads one byte if it is the expected one.
    fn match_op(&mut self, expected: u8) -> (matched: bool)
        requires
            old(self).wf(),
        ensures
            final(self).wf(),
            matched == (old(self).cursor() < old(self).source().len()
                && old(self).source()[old(self).cursor()] == expected),
            matched ==> *final(self) == (Scanner {
                current: (old(self).current + 1) as usize,
                ..*old(self)
            }),
            !matched ==> *final(self) == *old(self),
    {
        if self.is_at_end() {
            return false;
        }
        if self.source.as_bytes()[self.current] != expected {
            return false;
        }
        self.current += 1;
        true
    }

    /// Scans an operator of one or two characters, whose first has been read.
    fn operator(&mut self, with_equals: TokenType, alone: TokenType)
        requires
            old(self).begun(),
            operator(byte_at(old(self).source(), old(self).mark())) == Some((with_equals, alone)),
        ensures
            final(self).stepped(old(self)),
    {
        let token_type = if self.match_op('=' as u8) {
            with_equals
        } else {
            alone
        };
        self.add_token(token_type);
        assert(self.emitted() =~= old(self).emitted() + items(
            token_at(old(self).source(), old(self).mark()),
        ));
        assert(self.raised() =~= old(self).raised() + items(
            diagnostic_at(old(self).source(), old(self).mark()),
        ));
    }

    /// Scans what begins with a slash that has been read: a comment to the
    /// end of the line, a block comment, or the slash by itself.
    fn slash(&mut self)
        requires
            old(self).begun(),
            byte_at(old(self).source(), old(self).mark()) == '/' as u8,
        ensures
            final(self).stepped(old(self)),
    {
        let ghost src = self.source();
        let ghost begin = self.start as int;
        if self.match_op('/' as u8) {
            while self.peek() != '\n' as u8 && !self.is_at_end()
                invariant
                    self.wf(),
                    self.source() == src,
                    *self == (Scanner { current: self.current, ..*old(self) }),
                    begin + 2 <= self.current,
                    self.line == line_at(src, self.current as int),
                    gap(src, begin + 2, '\n' as u8) == (self.current - (begin + 2)) + gap(
                        src,
                        self.current as int,
                        '\n' as u8,
                    ),
                decreases src.len() - self.current,
            {
                self.advance();
            }
        } else if self.match_op('*' as u8) {
            while !self.is_at_end() && !(self.peek() == '*' as u8 && self.peek_next() == '/' as u8)
                invariant
                    self.wf(),
                    self.source() == src,
                    *self == (Scanner { current: self.current, line: self.line, ..*old(self) }),
                    begin + 2 <= self.current,
                    self.line == line_at(src, self.current as int),
                    comment_gap(src, begin + 2) == (self.current - (begin + 2)) + comment_gap(
                        src,
                        self.current as int,
                    ),
                decreases src.len() - self.current,
            {
                proof {
                    lemma_newlines_bound(src, self.current as int);
                }
                if self.peek() == '\n' as u8 {
                    self.line += 1;
                }
                self.advance();
            }
            if self.is_at_end() {
                self.diagnostics.push(
                    Diagnostic { fault: Fault::UnterminatedComment, line: self.line },
                );
            } else {
                self.advance();
                self.advance();
            }
        } else {
            self.add_token(TokenType::SLASH);
        }
        assert(self.emitted() =~= old(self).emitted() + items(token_at(src, begin)));
        assert(self.raised() =~= old(self).raised() + items(diagnostic_at(src, begin)));
    }

    /// The byte at the cursor, and NUL at the end of the source.
    fn peek(&self) -> (b: u8)
        requires
            self.wf(),
        ensures
            b == byte_at(self.source(), self.cursor()),
    {
        if self.is_at_end() {
            return 0;
        }
        self.source.as_bytes()[self.current]
    }

    /// The byte after the one at the cursor, and NUL where there is none.
    fn peek_next(&self) -> (b: u8)
        requires
            self.wf(),
        ensures
            b == byte_at(self.source(), self.cursor() + 1),
    {
        if self.current + 1 >= self.source.len() {
            return 0;
        }
        self.source.as_bytes()[self.current + 1]
    }

    /// Scans a string literal, whose opening quote has been read.
    fn string(&mut self)
        requires
            old(self).begun(),
            byte_at(old(self).source(), old(self).mark()) == '"' as u8,
        ensures
            final(self).stepped(old(self)),
    {
        let ghost src = self.source();
        let ghost begin = self.start as int;
        while self.peek() != '"' as u8 && !self.is_at_end()
            invariant
                self.wf(),
                self.source() == src,
                *self == (Scanner { current: self.current, line: self.line, ..*old(self) }),
                begin + 1 <= self.current,
                self.line == line_at(src, self.current as int),
                gap(src, begin + 1, '"' as u8) == (self.current - (begin + 1)) + gap(
                    src,
                    self.current as int,
                    '"' as u8,
                ),
            decreases src.len() - self.current,
        {
            proof {
                lemma_newlines_bound(src, self.current as int);
            }
            if self.peek() == '\n' as u8 {
                self.line += 1;
            }
            self.advance();
        }
        let close = self.current;
        if self.is_at_end() {
            self.diagnostics.push(Diagnostic { fault: Fault::UnterminatedString, line: self.line });
        } else {
            self.advance();
        }
        let value = slice_text(self.source, self.start + 1, close);
        self.add_token_literal(TokenType::STRING, Some(Literal::String(value)));
        assert(self.emitted() =~= old(self).emitted() + items(token_at(src, begin)));
        assert(self.raised() =~= old(self).raised() + items(diagnostic_at(src, begin)));
    }

    /// Whether `b` is an ASCII digit.
    fn is_digit(&self, b: u8) -> (digit: bool)
        ensures
            digit == is_digit(b),
    {
        '0' as u8 <= b && b <= '9' as u8
    }

    /// Scans a numeral, whose first digit has been read.
    fn number(&mut self)
        requires
            old(self).begun(),
            is_digit(byte_at(old(self).source(), old(self).mark())),
        ensures
            final(self).stepped(old(self)),
    {
        let ghost src = self.source();
        let ghost begin = self.start as int;
        while self.is_digit(self.peek())
            invariant
                self.wf(),
                self.source() == src,
                *self == (Scanner { current: self.current, ..*old(self) }),
                begin + 1 <= self.current,
                self.line == line_at(src, self.current as int),
                digit_run(src, begin + 1) == (self.current - (begin + 1)) + digit_run(
                    src,
                    self.current as int,
                ),
            decreases src.len() - self.current,
        {
            self.advance();
        }
        if self.peek() == '.' as u8 && self.is_digit(self.peek_next()) {
            self.advance();
            let ghost after_dot = self.current as int;
            while self.is_digit(self.peek())
                invariant
                    self.wf(),
                    self.source() == src,
                    *self == (Scanner { current: self.current, ..*old(self) }),
                    after_dot <= self.current,
                    self.line == line_at(src, self.current as int),
                    digit_run(src, after_dot) == (self.current - after_dot) + digit_run(
                        src,
                        self.current as int,
                    ),
                decreases src.len() - self.current,
            {
                self.advance();
            }
        }
        let numeral = slice_text(self.source, self.start, self.current);
        self.add_token_literal(TokenType::NUMBER, Some(Literal::Number(numeral)));
        assert(self.emitted() =~= old(self).emitted() + items(token_at(src, begin)));
        assert(self.raised() =~= old(self).raised() + items(diagnostic_at(src, begin)));
    }

    /// Whether `b` is an ASCII letter or an underscore.
    fn is_alpha(&self, b: u8) -> (alpha: bool)
        ensures
            alpha == is_alpha(b),
    {
        ('a' as u8 <= b && b <= 'z' as u8) || ('A' as u8 <= b && b <= 'Z' as u8) || b == '_' as u8
    }

    /// Whether a word can go on with `b`.
    fn is_alphanumeric(&self, b: u8) -> (alphanumeric: bool)
        ensures
            alphanumeric == is_alphanumeric(b),
    {
        self.is_digit(b) || self.is_alpha(b)
    }

    /// Scans a word, whose first letter has been read: a keyword or an
    /// identifier.
    fn identifier(&mut self)
        requires
            old(self).begun(),
            is_alpha(byte_at(old(self).source(), old(self).mark())),
        ensures
            final(self).stepped(old(self)),
    {
        let ghost src = self.source();
        let ghost begin = self.start as int;
        while self.is_alphanumeric(self.peek())
            invariant
                self.wf(),
                self.source() == src,
                *self == (Scanner { current: self.current, ..*old(self) }),
                begin + 1 <= self.current,
                self.line == line_at(src, self.current as int),
                word_run(src, begin + 1) == (self.current - (begin + 1)) + word_run(
                    src,
                    self.current as int,
                ),
            decreases src.len() - self.current,
        {
            self.advance();
        }
        let word = slice_text(self.source, self.start, self.current);
        let token_type = Self::keywords(word.as_str());
        self.add_token(token_type);
        assert(self.emitted() =~= old(self).emitted() + items(token_at(src, begin)));
        assert(self.raised() =~= old(self).raised() + items(diagnostic_at(src, begin)));
    }

    /// The token of a word: its keyword, or `IDENTIFIER`.
    pub fn keywords(word: &str) -> (token_type: TokenType)
        ensures
            token_type == word_type(word@),
    {
        if same_text(word, "and") {
            TokenType::AND
        } else if same_text(word, "class") {
            TokenType::CLASS
        } else if same_text(word, "else") {
            TokenType::ELSE
        } else if same_text(word, "false") {
            TokenType::FALSE
        } else if same_text(word, "for") {
            TokenType::FOR
        } else if same_text(word, "fun") {
            TokenType::FUN
        } else if same_text(word, "if") {
            TokenType::IF
        } else if same_text(word, "nil") {
            TokenType::NIL
        } else if same_text(word, "or") {
            TokenType::OR
        } else if same_text(word, "print") {
            TokenType::PRINT
        } else if same_text(word, "return") {
            TokenType::RETURN
        } else if same_text(word, "super") {
            TokenType::SUPER
        } else if same_text(word, "this") {
            TokenType::THIS
        } else if same_text(word, "true") {
            TokenType::TRUE
        } else if same_text(word, "var") {
            TokenType::VAR
        } else if same_text(word, "while") {
            TokenType::WHILE
        } else {
            TokenType::IDENTIFIER
        }
    }
}

/// Whether the tokens of `source` begin with the types in `expected`, in
/// that order.
pub fn check_token_types(source: &str, expected: Vec<TokenType>) -> (matches: bool)
    requires
        source.spec_bytes().len() < usize::MAX,
    ensures
        matches == expected@.is_prefix_of(token_types(lex(source.spec_bytes()))),
{
    let mut scanner = Scanner::new(source);
    let tokens = scanner.scan();
    let ghost types = token_types(lex(source.spec_bytes()));
    assert(types.len() == tokens@.len());
    if expected.len() > tokens.len() {
        return false;
    }
    let mut i: usize = 0;
    while i < expected.len()
        invariant
            i <= expected@.len() <= tokens@.len(),
            types == token_types(lex(source.spec_bytes())),
            types.len() == tokens@.len(),
            forall|j: int| 0 <= j < tokens@.len() ==> types[j] == tokens@[j].token_type,
            forall|j: int| 0 <= j < i ==> expected@[j] == types[j],
        decreases expected@.len() - i,
    {
        if expected[i] != tokens[i].token_type {
            assert(types.subrange(0, expected@.len() as int)[i as int] == types[i as int]);
            return false;
        }
        i += 1;
    }
    assert(expected@ =~= types.subrange(0, expected@.len() as int));
    true
}

} // verus!
