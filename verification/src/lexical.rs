//! What the tokens of a source text are.
//!
//! Everything here is mathematics over the bytes of the source: which lexeme
//! begins at a position, how long it is, which token it stands for and which
//! complaint it raises. The scanner is proved to produce exactly the sequences
//! defined here.
use crate::diagnostic::{DiagnosticView, Fault};
use crate::text::{lemma_ascii_boundaries, lemma_text_encodes};
use crate::token::{LiteralView, TokenType, TokenView};
use vstd::prelude::*;
use vstd::utf8::{
    decode_utf8, encode_utf8, group_utf8_lib, is_char_boundary, is_leading_byte_width_1,
    partial_valid_utf8, partial_valid_utf8_extend_ascii_block, valid_utf8,
};

verus! {

/// An ASCII digit.
pub open spec fn is_digit(b: u8) -> bool {
    '0' as u8 <= b <= '9' as u8
}

/// An ASCII letter or an underscore.
pub open spec fn is_alpha(b: u8) -> bool {
    ('a' as u8 <= b <= 'z' as u8) || ('A' as u8 <= b <= 'Z' as u8) || b == '_' as u8
}

/// A byte that a word can go on with.
pub open spec fn is_alphanumeric(b: u8) -> bool {
    is_digit(b) || is_alpha(b)
}

/// Space, carriage return, tab and line feed.
pub open spec fn is_blank(b: u8) -> bool {
    b == ' ' as u8 || b == '\r' as u8 || b == '\t' as u8 || b == '\n' as u8
}

/// The byte at `i`, and NUL on either side of the source.
pub open spec fn byte_at(src: Seq<u8>, i: int) -> u8 {
    if 0 <= i < src.len() {
        src[i]
    } else {
        0
    }
}

/// How many digits stand in a row from `pos` on.
pub open spec fn digit_run(src: Seq<u8>, pos: int) -> nat
    decreases src.len() - pos,
{
    if 0 <= pos < src.len() && is_digit(src[pos]) {
        1 + digit_run(src, pos + 1)
    } else {
        0
    }
}

/// How many letters, digits and underscores stand in a row from `pos` on.
pub open spec fn word_run(src: Seq<u8>, pos: int) -> nat
    decreases src.len() - pos,
{
    if 0 <= pos < src.len() && is_alphanumeric(src[pos]) {
        1 + word_run(src, pos + 1)
    } else {
        0
    }
}

/// How many bytes from `pos` on come before the next `stop`, or before the
/// end of the source where there is none.
pub open spec fn gap(src: Seq<u8>, pos: int, stop: u8) -> nat
    decreases src.len() - pos,
{
    if 0 <= pos < src.len() && src[pos] != stop {
        1 + gap(src, pos + 1, stop)
    } else {
        0
    }
}

/// Whether the two bytes at `pos` close a block comment.
pub open spec fn closes_comment(src: Seq<u8>, pos: int) -> bool {
    byte_at(src, pos) == '*' as u8 && byte_at(src, pos + 1) == '/' as u8
}

/// How many bytes from `pos` on come before the next `*/`, or before the end
/// of the source where there is none.
pub open spec fn comment_gap(src: Seq<u8>, pos: int) -> nat
    decreases src.len() - pos,
{
    if 0 <= pos < src.len() && !closes_comment(src, pos) {
        1 + comment_gap(src, pos + 1)
    } else {
        0
    }
}

/// How many line feeds are among the first `end` bytes.
pub open spec fn newlines(src: Seq<u8>, end: int) -> nat
    decreases end,
{
    if 0 < end <= src.len() {
        newlines(src, end - 1) + if src[end - 1] == '\n' as u8 {
            1nat
        } else {
            0nat
        }
    } else {
        0
    }
}

/// The line the scanner is on once it has read the first `pos` bytes.
pub open spec fn line_at(src: Seq<u8>, pos: int) -> nat {
    1 + newlines(src, pos)
}

/// The characters that `src[start..end]` encodes. Where the range does not lie
/// on character boundaries it encodes none, and the text is empty.
pub open spec fn text(src: Seq<u8>, start: int, end: int) -> Seq<char> {
    if is_char_boundary(src, start) && is_char_boundary(src, end) {
        decode_utf8(src.subrange(start, end))
    } else {
        Seq::empty()
    }
}

/// The token of a punctuation mark that is a lexeme by itself.
pub open spec fn punctuation(b: u8) -> Option<TokenType> {
    if b == '(' as u8 {
        Some(TokenType::LPAREN)
    } else if b == ')' as u8 {
        Some(TokenType::RPAREN)
    } else if b == '{' as u8 {
        Some(TokenType::LBRACE)
    } else if b == '}' as u8 {
        Some(TokenType::RBRACE)
    } else if b == ',' as u8 {
        Some(TokenType::COMMA)
    } else if b == '.' as u8 {
        Some(TokenType::DOT)
    } else if b == '-' as u8 {
        Some(TokenType::MINUS)
    } else if b == '+' as u8 {
        Some(TokenType::PLUS)
    } else if b == ';' as u8 {
        Some(TokenType::SEMICOLON)
    } else if b == '*' as u8 {
        Some(TokenType::STAR)
    } else if b == '?' as u8 {
        Some(TokenType::QUESTION)
    } else if b == ':' as u8 {
        Some(TokenType::COLON)
    } else {
        None
    }
}

/// For a byte that begins an operator of one or two characters: the token of
/// the operator followed by `=`, then the token of the operator alone.
pub open spec fn operator(b: u8) -> Option<(TokenType, TokenType)> {
    if b == '!' as u8 {
        Some((TokenType::BANG_EQ, TokenType::BANG))
    } else if b == '=' as u8 {
        Some((TokenType::EQ_EQ, TokenType::EQ))
    } else if b == '<' as u8 {
        Some((TokenType::LT_EQ, TokenType::LT))
    } else if b == '>' as u8 {
        Some((TokenType::GT_EQ, TokenType::GT))
    } else {
        None
    }
}

/// The reserved word that `word` spells, if it spells one. The comparison is
/// exact: a word in another case is no keyword.
pub open spec fn keyword(word: Seq<char>) -> Option<TokenType> {
    if word == "and"@ {
        Some(TokenType::AND)
    } else if word == "class"@ {
        Some(TokenType::CLASS)
    } else if word == "else"@ {
        Some(TokenType::ELSE)
    } else if word == "false"@ {
        Some(TokenType::FALSE)
    } else if word == "for"@ {
        Some(TokenType::FOR)
    } else if word == "fun"@ {
        Some(TokenType::FUN)
    } else if word == "if"@ {
        Some(TokenType::IF)
    } else if word == "nil"@ {
        Some(TokenType::NIL)
    } else if word == "or"@ {
        Some(TokenType::OR)
    } else if word == "print"@ {
        Some(TokenType::PRINT)
    } else if word == "return"@ {
        Some(TokenType::RETURN)
    } else if word == "super"@ {
        Some(TokenType::SUPER)
    } else if word == "this"@ {
        Some(TokenType::THIS)
    } else if word == "true"@ {
        Some(TokenType::TRUE)
    } else if word == "var"@ {
        Some(TokenType::VAR)
    } else if word == "while"@ {
        Some(TokenType::WHILE)
    } else {
        None
    }
}

/// The token of a word: its keyword, or `IDENTIFIER`.
pub open spec fn word_type(word: Seq<char>) -> TokenType {
    match keyword(word) {
        Some(t) => t,
        None => TokenType::IDENTIFIER,
    }
}

/// The length of the numeral that begins with the digit at `start`: a run of
/// digits, and a dot with a second run only where a digit follows the dot.
pub open spec fn number_len(src: Seq<u8>, start: int) -> nat {
    let whole = 1 + digit_run(src, start + 1);
    if byte_at(src, start + whole) == '.' as u8 && is_digit(byte_at(src, start + whole + 1)) {
        whole + 1 + digit_run(src, start + whole + 1)
    } else {
        whole
    }
}

/// One stretch of source text as the scanner takes it in a single step.
pub struct Lexeme {
    /// How many bytes it spans; never zero.
    pub len: nat,
    /// The token it stands for; blanks, comments and illegal bytes stand for
    /// none.
    pub token_type: Option<TokenType>,
    /// What is wrong with it, if anything.
    pub fault: Option<Fault>,
}

/// The lexeme that begins at `start`, for `0 <= start < src.len()`.
pub open spec fn lexeme_at(src: Seq<u8>, start: int) -> Lexeme {
    let b = byte_at(src, start);
    let next = byte_at(src, start + 1);
    if punctuation(b) is Some {
        Lexeme { len: 1, token_type: punctuation(b), fault: None }
    } else if let Some((with_equals, alone)) = operator(b) {
        if next == '=' as u8 {
            Lexeme { len: 2, token_type: Some(with_equals), fault: None }
        } else {
            Lexeme { len: 1, token_type: Some(alone), fault: None }
        }
    } else if b == '/' as u8 {
        if next == '/' as u8 {
            Lexeme { len: 2 + gap(src, start + 2, '\n' as u8), token_type: None, fault: None }
        } else if next == '*' as u8 {
            let body = comment_gap(src, start + 2);
            if start + 2 + body < src.len() {
                Lexeme { len: 2 + body + 2, token_type: None, fault: None }
            } else {
                Lexeme {
                    len: 2 + body,
                    token_type: None,
                    fault: Some(Fault::UnterminatedComment),
                }
            }
        } else {
            Lexeme { len: 1, token_type: Some(TokenType::SLASH), fault: None }
        }
    } else if is_blank(b) {
        Lexeme { len: 1, token_type: None, fault: None }
    } else if b == '"' as u8 {
        let body = gap(src, start + 1, '"' as u8);
        if start + 1 + body < src.len() {
            Lexeme { len: 1 + body + 1, token_type: Some(TokenType::STRING), fault: None }
        } else {
            Lexeme {
                len: 1 + body,
                token_type: Some(TokenType::STRING),
                fault: Some(Fault::UnterminatedString),
            }
        }
    } else if is_digit(b) {
        Lexeme { len: number_len(src, start), token_type: Some(TokenType::NUMBER), fault: None }
    } else if is_alpha(b) {
        let len = 1 + word_run(src, start + 1);
        Lexeme {
            len,
            token_type: Some(word_type(text(src, start, start + len))),
            fault: None,
        }
    } else {
        Lexeme { len: 1, token_type: None, fault: Some(Fault::IllegalCharacter) }
    }
}

/// The value that the lexeme at `start` carries: for a string the text after
/// the opening quote, up to the closing quote or the end of the source; for a
/// number its numeral; for anything else nothing.
pub open spec fn literal_at(src: Seq<u8>, start: int) -> LiteralView {
    let b = byte_at(src, start);
    if b == '"' as u8 {
        LiteralView::String(text(src, start + 1, start + 1 + gap(src, start + 1, '"' as u8)))
    } else if is_digit(b) {
        LiteralView::Number(text(src, start, start + number_len(src, start)))
    } else {
        LiteralView::Absent
    }
}

/// The token that the lexeme at `start` gives, if it gives one. Its line is
/// the line on which the lexeme ends.
pub open spec fn token_at(src: Seq<u8>, start: int) -> Option<TokenView> {
    let lexeme = lexeme_at(src, start);
    match lexeme.token_type {
        Some(token_type) => Some(
            TokenView {
                lexeme: text(src, start, start + lexeme.len),
                token_type,
                literal: literal_at(src, start),
                line: line_at(src, start + lexeme.len),
            },
        ),
        None => None,
    }
}

/// The complaint that the lexeme at `start` gives rise to, if any, with the
/// line on which the lexeme ends.
pub open spec fn diagnostic_at(src: Seq<u8>, start: int) -> Option<DiagnosticView> {
    let lexeme = lexeme_at(src, start);
    match lexeme.fault {
        Some(fault) => Some(DiagnosticView { fault, line: line_at(src, start + lexeme.len) }),
        None => None,
    }
}

/// The token that ends every scan. Its lexeme is a placeholder: the text of
/// the stretch that was scanned last, which began at `last`.
pub open spec fn end_token(src: Seq<u8>, last: int) -> TokenView {
    TokenView {
        lexeme: text(src, last, src.len() as int),
        token_type: TokenType::EOF,
        literal: LiteralView::Absent,
        line: line_at(src, src.len() as int),
    }
}

/// The sequence that holds what an `Option` holds.
pub open spec fn items<T>(item: Option<T>) -> Seq<T> {
    match item {
        Some(x) => seq![x],
        None => Seq::empty(),
    }
}

/// How far `pos` is from the end of the source.
pub open spec fn remaining(src: Seq<u8>, pos: int) -> nat {
    if 0 <= pos < src.len() {
        (src.len() - pos) as nat
    } else {
        0
    }
}

/// The tokens that a scanner at `pos` has yet to give, where the stretch it
/// scanned last began at `last`.
pub open spec fn tokens_from(src: Seq<u8>, pos: int, last: int) -> Seq<TokenView>
    decreases remaining(src, pos),
{
    if 0 <= pos < src.len() {
        items(token_at(src, pos)) + tokens_from(src, pos + lexeme_at(src, pos).len, pos)
    } else {
        seq![end_token(src, last)]
    }
}

/// The complaints that a scanner at `pos` has yet to make.
pub open spec fn diagnostics_from(src: Seq<u8>, pos: int) -> Seq<DiagnosticView>
    decreases remaining(src, pos),
{
    if 0 <= pos < src.len() {
        items(diagnostic_at(src, pos)) + diagnostics_from(src, pos + lexeme_at(src, pos).len)
    } else {
        Seq::empty()
    }
}

/// Where the last stretch begins that a scanner at `pos` has yet to scan, or
/// `last` where it has none left.
pub open spec fn last_start(src: Seq<u8>, pos: int, last: int) -> int
    decreases remaining(src, pos),
{
    if 0 <= pos < src.len() {
        last_start(src, pos + lexeme_at(src, pos).len, pos)
    } else {
        last
    }
}

/// Whether the lines of the tokens never go down from one to the next.
pub open spec fn ascending(tokens: Seq<TokenView>) -> bool {
    forall|i: int, j: int|
        0 <= i <= j < tokens.len() ==> (#[trigger] tokens[i]).line <= (#[trigger] tokens[j]).line
}

/// The types of a sequence of tokens, in order.
pub open spec fn token_types(tokens: Seq<TokenView>) -> Seq<TokenType> {
    tokens.map_values(|t: TokenView| t.token_type)
}

/// The tokens of a source text.
pub open spec fn lex(src: Seq<u8>) -> Seq<TokenView> {
    tokens_from(src, 0, 0)
}

/// The complaints about a source text.
pub open spec fn complaints(src: Seq<u8>) -> Seq<DiagnosticView> {
    diagnostics_from(src, 0)
}

/// A line feed among the first `end` bytes takes one of them.
pub proof fn lemma_newlines_bound(src: Seq<u8>, end: int)
    requires
        0 <= end,
    ensures
        newlines(src, end) <= end,
    decreases end,
{
    if 0 < end <= src.len() {
        lemma_newlines_bound(src, end - 1);
    }
}

/// A run of digits lies inside the source, holds digits only, and ends
/// before a byte that is no digit.
pub proof fn lemma_digit_run(src: Seq<u8>, pos: int)
    requires
        0 <= pos <= src.len(),
    ensures
        pos + digit_run(src, pos) <= src.len(),
        forall|i: int| pos <= i < pos + digit_run(src, pos) ==> is_digit(#[trigger] src[i]),
        !is_digit(byte_at(src, pos + digit_run(src, pos))),
    decreases src.len() - pos,
{
    if pos < src.len() && is_digit(src[pos]) {
        lemma_digit_run(src, pos + 1);
    }
}

/// A run of word characters lies inside the source, holds word characters
/// only, and ends before a byte that is none.
pub proof fn lemma_word_run(src: Seq<u8>, pos: int)
    requires
        0 <= pos <= src.len(),
    ensures
        pos + word_run(src, pos) <= src.len(),
        forall|i: int|
            pos <= i < pos + word_run(src, pos) ==> is_alphanumeric(#[trigger] src[i]),
        !is_alphanumeric(byte_at(src, pos + word_run(src, pos))),
    decreases src.len() - pos,
{
    if pos < src.len() && is_alphanumeric(src[pos]) {
        lemma_word_run(src, pos + 1);
    }
}

/// A gap lies inside the source, holds no `stop`, and ends at a `stop` or at
/// the end of the source.
pub proof fn lemma_gap(src: Seq<u8>, pos: int, stop: u8)
    requires
        0 <= pos <= src.len(),
    ensures
        pos + gap(src, pos, stop) <= src.len(),
        forall|i: int| pos <= i < pos + gap(src, pos, stop) ==> #[trigger] src[i] != stop,
        pos + gap(src, pos, stop) < src.len() ==> src[pos + gap(src, pos, stop)] == stop,
    decreases src.len() - pos,
{
    if pos < src.len() && src[pos] != stop {
        lemma_gap(src, pos + 1, stop);
    }
}

/// The body of a block comment lies inside the source, holds no `*/`, and
/// ends at a `*/` or at the end of the source.
pub proof fn lemma_comment_gap(src: Seq<u8>, pos: int)
    requires
        0 <= pos <= src.len(),
    ensures
        pos + comment_gap(src, pos) <= src.len(),
        forall|i: int|
            pos <= i < pos + comment_gap(src, pos) ==> !#[trigger] closes_comment(src, i),
        pos + comment_gap(src, pos) < src.len() ==> closes_comment(
            src,
            pos + comment_gap(src, pos),
        ),
    decreases src.len() - pos,
{
    if pos < src.len() && !closes_comment(src, pos) {
        lemma_comment_gap(src, pos + 1);
    }
}

/// A lexeme is not empty and lies inside the source.
pub proof fn lemma_lexeme_bounds(src: Seq<u8>, start: int)
    requires
        0 <= start < src.len(),
    ensures
        1 <= lexeme_at(src, start).len,
        start + lexeme_at(src, start).len <= src.len(),
{
    let b = src[start];
    if b == '/' as u8 {
        if start + 2 <= src.len() {
            lemma_gap(src, start + 2, '\n' as u8);
            lemma_comment_gap(src, start + 2);
        }
    } else if b == '"' as u8 {
        lemma_gap(src, start + 1, '"' as u8);
    } else if is_digit(b) {
        lemma_digit_run(src, start + 1);
        let whole = 1 + digit_run(src, start + 1);
        if start + whole + 1 <= src.len() {
            lemma_digit_run(src, start + whole + 1);
        }
    } else if is_alpha(b) {
        lemma_word_run(src, start + 1);
    }
}

/// Line feeds only add up: further on in the source the line is no smaller.
pub proof fn lemma_line_grows(src: Seq<u8>, a: int, b: int)
    requires
        0 <= a <= b <= src.len(),
    ensures
        line_at(src, a) <= line_at(src, b),
    decreases b - a,
{
    if a < b {
        lemma_line_grows(src, a, b - 1);
    }
}

/// What is left to scan ends with the end token, and holds no other.
pub proof fn lemma_tokens_end(src: Seq<u8>, pos: int, last: int)
    ensures
        tokens_from(src, pos, last).len() >= 1,
        tokens_from(src, pos, last).last() == end_token(src, last_start(src, pos, last)),
        forall|i: int|
            0 <= i < tokens_from(src, pos, last).len() - 1 ==> #[trigger] tokens_from(
                src,
                pos,
                last,
            )[i].token_type != TokenType::EOF,
    decreases remaining(src, pos),
{
    if 0 <= pos < src.len() {
        let next = pos + lexeme_at(src, pos).len;
        lemma_lexeme_bounds(src, pos);
        lemma_tokens_end(src, next, pos);
    }
}

/// The lines of what is left to scan lie between the line at the cursor and
/// the last line, and never go down.
pub proof fn lemma_tokens_lines(src: Seq<u8>, pos: int, last: int)
    requires
        0 <= pos <= src.len(),
    ensures
        forall|i: int|
            0 <= i < tokens_from(src, pos, last).len() ==> line_at(src, pos)
                <= (#[trigger] tokens_from(src, pos, last)[i]).line <= line_at(
                src,
                src.len() as int,
            ),
        forall|i: int, j: int|
            0 <= i <= j < tokens_from(src, pos, last).len() ==> (#[trigger] tokens_from(
                src,
                pos,
                last,
            )[i]).line <= (#[trigger] tokens_from(src, pos, last)[j]).line,
    decreases remaining(src, pos),
{
    if pos < src.len() {
        let next = pos + lexeme_at(src, pos).len;
        lemma_lexeme_bounds(src, pos);
        lemma_tokens_lines(src, next, pos);
        lemma_line_grows(src, pos, next);
        lemma_line_grows(src, next, src.len() as int);
    }
}

/// The tokens of any source end with the end token, which occurs nowhere
/// else among them.
pub proof fn lemma_lex_ends(src: Seq<u8>)
    ensures
        lex(src).len() >= 1,
        lex(src).last().token_type == TokenType::EOF,
        forall|i: int| 0 <= i < lex(src).len() - 1 ==> #[trigger] lex(src)[i].token_type
            != TokenType::EOF,
{
    lemma_tokens_end(src, 0, 0);
}

/// The lines of the tokens of any source begin at 1 or later and never go
/// down from one token to the next.
pub proof fn lemma_lex_lines(src: Seq<u8>)
    ensures
        forall|i: int| 0 <= i < lex(src).len() ==> 1 <= (#[trigger] lex(src)[i]).line,
        ascending(lex(src)),
{
    lemma_tokens_lines(src, 0, 0);
}

/// Every token is cut out of the source on character boundaries: its lexeme
/// is the text of exactly the bytes that the lexeme spans, the value of a
/// string is the text of exactly the bytes after the opening quote and before
/// the closing one, and the value of a number is its lexeme.
pub proof fn lemma_token_spans(src: Seq<u8>, start: int)
    requires
        valid_utf8(src),
        0 <= start < src.len(),
        token_at(src, start) is Some,
    ensures
        encode_utf8(token_at(src, start)->0.lexeme) == src.subrange(
            start,
            start + lexeme_at(src, start).len,
        ),
        token_at(src, start)->0.literal matches LiteralView::String(value) ==> encode_utf8(value)
            == src.subrange(start + 1, start + 1 + gap(src, start + 1, '"' as u8)),
        token_at(src, start)->0.literal matches LiteralView::Number(numeral) ==> numeral
            == token_at(src, start)->0.lexeme,
{
    broadcast use group_utf8_lib;

    let b = src[start];
    let len = lexeme_at(src, start).len;
    let end = start + len;
    lemma_lexeme_bounds(src, start);
    lemma_ascii_boundaries(src, start);
    if b == '"' as u8 {
        let close = start + 1 + gap(src, start + 1, '"' as u8);
        lemma_gap(src, start + 1, '"' as u8);
        if close < src.len() {
            lemma_ascii_boundaries(src, close);
        }
        lemma_text_encodes(src, start + 1, close);
    } else if is_digit(b) {
        let whole = 1 + digit_run(src, start + 1);
        lemma_digit_run(src, start + 1);
        if start + whole + 1 <= src.len() {
            lemma_digit_run(src, start + whole + 1);
        }
        assert(is_digit(src[end - 1]));
        lemma_ascii_boundaries(src, end - 1);
    } else if is_alpha(b) {
        lemma_word_run(src, start + 1);
        assert(is_alphanumeric(src[end - 1]));
        lemma_ascii_boundaries(src, end - 1);
    } else if len == 2 {
        lemma_ascii_boundaries(src, start + 1);
    }
    lemma_text_encodes(src, start, end);
}

/// Where no line feed is read, the line stays.
pub proof fn lemma_line_stays(src: Seq<u8>, a: int, b: int)
    requires
        0 <= a <= b <= src.len(),
        forall|i: int| a <= i < b ==> src[i] != '\n' as u8,
    ensures
        line_at(src, a) == line_at(src, b),
    decreases b - a,
{
    if a < b {
        lemma_line_stays(src, a, b - 1);
    }
}

/// A decimal numeral: digits, with at most one dot among them, which is
/// neither the first byte nor the last.
pub open spec fn is_numeral(src: Seq<u8>) -> bool {
    &&& src.len() > 0
    &&& is_digit(src.first())
    &&& is_digit(src.last())
    &&& forall|i: int| 0 <= i < src.len() ==> is_digit(#[trigger] src[i]) || src[i] == '.' as u8
    &&& forall|i: int, j: int|
        0 <= i < j < src.len() ==> !(#[trigger] src[i] == '.' as u8 && #[trigger] src[j]
            == '.' as u8)
}

/// A source that is one decimal numeral scans to one `NUMBER` token and the
/// end token, without complaint. The lexeme of the number is the whole
/// source, and its value is that numeral.
pub proof fn lemma_numeral_scans(src: Seq<u8>)
    requires
        is_numeral(src),
    ensures
        valid_utf8(src),
        encode_utf8(text(src, 0, src.len() as int)) == src,
        lex(src) == seq![
            TokenView {
                lexeme: text(src, 0, src.len() as int),
                token_type: TokenType::NUMBER,
                literal: LiteralView::Number(text(src, 0, src.len() as int)),
                line: 1,
            },
            TokenView {
                lexeme: text(src, 0, src.len() as int),
                token_type: TokenType::EOF,
                literal: LiteralView::Absent,
                line: 1,
            },
        ],
        complaints(src) == Seq::<DiagnosticView>::empty(),
{
    broadcast use group_utf8_lib;

    let len = src.len() as int;
    assert(valid_utf8(src)) by {
        assert(src.subrange(0, 0) =~= Seq::<u8>::empty());
        assert(partial_valid_utf8(src, 0));
        assert forall|i: int| 0 <= i < len implies #[trigger] is_leading_byte_width_1(
            src[i],
        ) by {
            assert(is_digit(src[i]) || src[i] == '.' as u8);
        }
        partial_valid_utf8_extend_ascii_block(src, 0, len);
        assert(src.subrange(0, len) =~= src);
    }
    let whole: int = 1 + digit_run(src, 1) as int;
    lemma_digit_run(src, 1);
    assert(number_len(src, 0) == len) by {
        if whole < len {
            assert(is_digit(src[whole]) || src[whole] == '.' as u8);
            assert(src[whole] == '.' as u8);
            assert(whole < len - 1);
            assert(is_digit(src[whole + 1]) || src[whole + 1] == '.' as u8);
            lemma_digit_run(src, whole + 1);
            let end = whole + 1 + digit_run(src, whole + 1);
            if end < len {
                assert(is_digit(src[end]) || src[end] == '.' as u8);
            }
        }
    }
    assert(src.subrange(0, len) =~= src);
    lemma_text_encodes(src, 0, len);
    assert forall|i: int| 0 <= i < len implies src[i] != '\n' as u8 by {
        assert(is_digit(src[i]) || src[i] == '.' as u8);
    }
    lemma_line_stays(src, 0, len);
    assert(tokens_from(src, len, 0) =~= seq![end_token(src, 0)]);
    assert(lex(src) =~= seq![token_at(src, 0)->0] + tokens_from(src, len, 0));
    assert(diagnostics_from(src, len) =~= Seq::<DiagnosticView>::empty());
    assert(complaints(src) =~= Seq::<DiagnosticView>::empty());
}

/// How many line feeds are among the bytes after `open` and before `close`.
pub open spec fn in_between(src: Seq<u8>, open: int, close: int) -> nat {
    (newlines(src, close) - newlines(src, open + 1)) as nat
}

/// A string literal that is closed: between the quote at `start` and the
/// next quote, at `close`, the source holds any bytes but a quote. It gives a
/// `STRING` token without complaint. The lexeme runs from quote to quote, the
/// value is the text strictly between them, and the line of the token is the
/// line on which the literal begins, plus one for every line feed between the
/// quotes.
pub proof fn lemma_string_scans(src: Seq<u8>, start: int, close: int)
    requires
        valid_utf8(src),
        0 <= start < close < src.len(),
        src[start] == '"' as u8,
        src[close] == '"' as u8,
        forall|i: int| start < i < close ==> src[i] != '"' as u8,
    ensures
        lexeme_at(src, start).len == close + 1 - start,
        diagnostic_at(src, start) is None,
        token_at(src, start) == Some(
            TokenView {
                lexeme: text(src, start, close + 1),
                token_type: TokenType::STRING,
                literal: LiteralView::String(text(src, start + 1, close)),
                line: line_at(src, start) + in_between(src, start, close),
            },
        ),
        encode_utf8(text(src, start, close + 1)) == src.subrange(start, close + 1),
        encode_utf8(text(src, start + 1, close)) == src.subrange(start + 1, close),
{
    lemma_gap(src, start + 1, '"' as u8);
    let found = start + 1 + gap(src, start + 1, '"' as u8);
    assert(found == close) by {
        if found < close {
            assert(src[found] == '"' as u8);
        }
    }
    lemma_token_spans(src, start);
    lemma_line_grows(src, start + 1, close);
}

/// Whether a token carries the kind of value that goes with its type: a
/// string its text, a number its numeral, any other token nothing.
pub open spec fn well_valued(token: TokenView) -> bool {
    match token.token_type {
        TokenType::STRING => token.literal is String,
        TokenType::NUMBER => token.literal is Number,
        _ => token.literal is Absent,
    }
}

/// Every token that is left to scan carries the kind of value that goes with
/// its type.
pub proof fn lemma_tokens_values(src: Seq<u8>, pos: int, last: int)
    ensures
        forall|i: int|
            0 <= i < tokens_from(src, pos, last).len() ==> well_valued(
                #[trigger] tokens_from(src, pos, last)[i],
            ),
    decreases remaining(src, pos),
{
    if 0 <= pos < src.len() {
        let rest = tokens_from(src, pos + lexeme_at(src, pos).len, pos);
        lemma_tokens_values(src, pos + lexeme_at(src, pos).len, pos);
        match token_at(src, pos) {
            Some(token) => {
                assert(well_valued(token));
                assert forall|i: int|
                    0 <= i < tokens_from(src, pos, last).len() implies well_valued(
                    #[trigger] tokens_from(src, pos, last)[i],
                ) by {
                    if i > 0 {
                        assert(tokens_from(src, pos, last)[i] == rest[i - 1]);
                    }
                }
            },
            None => {},
        }
    }
}

/// Every token of any source carries the kind of value that goes with its
/// type.
pub proof fn lemma_lex_values(src: Seq<u8>)
    ensures
        forall|i: int| 0 <= i < lex(src).len() ==> well_valued(#[trigger] lex(src)[i]),
{
    lemma_tokens_values(src, 0, 0);
}

/// The table of reserved words has an entry for every keyword, and no entry
/// hides another: a word has the type of a keyword exactly where it spells
/// that keyword.
pub proof fn lemma_keyword_table(word: Seq<char>)
    ensures
        keyword(word) == Some(TokenType::AND) <==> word == "and"@,
        keyword(word) == Some(TokenType::CLASS) <==> word == "class"@,
        keyword(word) == Some(TokenType::ELSE) <==> word == "else"@,
        keyword(word) == Some(TokenType::FALSE) <==> word == "false"@,
        keyword(word) == Some(TokenType::FOR) <==> word == "for"@,
        keyword(word) == Some(TokenType::FUN) <==> word == "fun"@,
        keyword(word) == Some(TokenType::IF) <==> word == "if"@,
        keyword(word) == Some(TokenType::NIL) <==> word == "nil"@,
        keyword(word) == Some(TokenType::OR) <==> word == "or"@,
        keyword(word) == Some(TokenType::PRINT) <==> word == "print"@,
        keyword(word) == Some(TokenType::RETURN) <==> word == "return"@,
        keyword(word) == Some(TokenType::SUPER) <==> word == "super"@,
        keyword(word) == Some(TokenType::THIS) <==> word == "this"@,
        keyword(word) == Some(TokenType::TRUE) <==> word == "true"@,
        keyword(word) == Some(TokenType::VAR) <==> word == "var"@,
        keyword(word) == Some(TokenType::WHILE) <==> word == "while"@,
{
    reveal_strlit("and");
    reveal_strlit("class");
    reveal_strlit("else");
    reveal_strlit("false");
    reveal_strlit("for");
    reveal_strlit("fun");
    reveal_strlit("if");
    reveal_strlit("nil");
    reveal_strlit("or");
    reveal_strlit("print");
    reveal_strlit("return");
    reveal_strlit("super");
    reveal_strlit("this");
    reveal_strlit("true");
    reveal_strlit("var");
    reveal_strlit("while");
    assert("and"@.len() == 3 && "and"@[0] == 'a' && "and"@[1] == 'n');
    assert("class"@.len() == 5 && "class"@[0] == 'c' && "class"@[1] == 'l');
    assert("else"@.len() == 4 && "else"@[0] == 'e' && "else"@[1] == 'l');
    assert("false"@.len() == 5 && "false"@[0] == 'f' && "false"@[1] == 'a');
    assert("for"@.len() == 3 && "for"@[0] == 'f' && "for"@[1] == 'o');
    assert("fun"@.len() == 3 && "fun"@[0] == 'f' && "fun"@[1] == 'u');
    assert("if"@.len() == 2 && "if"@[0] == 'i' && "if"@[1] == 'f');
    assert("nil"@.len() == 3 && "nil"@[0] == 'n' && "nil"@[1] == 'i');
    assert("or"@.len() == 2 && "or"@[0] == 'o' && "or"@[1] == 'r');
    assert("print"@.len() == 5 && "print"@[0] == 'p' && "print"@[1] == 'r');
    assert("return"@.len() == 6 && "return"@[0] == 'r' && "return"@[1] == 'e');
    assert("super"@.len() == 5 && "super"@[0] == 's' && "super"@[1] == 'u');
    assert("this"@.len() == 4 && "this"@[0] == 't' && "this"@[1] == 'h');
    assert("true"@.len() == 4 && "true"@[0] == 't' && "true"@[1] == 'r');
    assert("var"@.len() == 3 && "var"@[0] == 'v' && "var"@[1] == 'a');
    assert("while"@.len() == 5 && "while"@[0] == 'w' && "while"@[1] == 'h');
}

} // verus!
