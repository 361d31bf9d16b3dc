//! Lexical analysis: from source text to positioned tokens.
//!
//! The token stream of a text is given by `tokens_from`; the `Lexer` walks
//! the text once and produces exactly that stream.

use crate::ast::result_view;
use crate::decimal::{canonical, is_numeral, Decimal};
use crate::text::{
    chars_of, digit, ident_class, is_digit, is_ident_char, is_letter, is_numeral_char,
    is_whitespace, lemma_run_end, letter, numeral_class, run_end, unquoted_class, whitespace_class,
};
use vstd::prelude::*;

verus! {

#[derive(Debug, PartialEq)]
pub enum Token {
    Let,
    Colon,
    Equal,
    Semicolon,
    Plus,
    Minus,
    Star,
    Slash,
    LParen,
    RParen,
    Number(Decimal),
    String(String),
    Identifier(String),
    Type(String),
    EOF,
}

pub enum TokenView {
    Let,
    Colon,
    Equal,
    Semicolon,
    Plus,
    Minus,
    Star,
    Slash,
    LParen,
    RParen,
    Number(Seq<char>),
    String(Seq<char>),
    Identifier(Seq<char>),
    Type(Seq<char>),
    EOF,
}

impl View for Token {
    type V = TokenView;

    open spec fn view(&self) -> TokenView {
        match self {
            Token::Let => TokenView::Let,
            Token::Colon => TokenView::Colon,
            Token::Equal => TokenView::Equal,
            Token::Semicolon => TokenView::Semicolon,
            Token::Plus => TokenView::Plus,
            Token::Minus => TokenView::Minus,
            Token::Star => TokenView::Star,
            Token::Slash => TokenView::Slash,
            Token::LParen => TokenView::LParen,
            Token::RParen => TokenView::RParen,
            Token::Number(n) => TokenView::Number(n@),
            Token::String(s) => TokenView::String(s@),
            Token::Identifier(name) => TokenView::Identifier(name@),
            Token::Type(name) => TokenView::Type(name@),
            Token::EOF => TokenView::EOF,
        }
    }
}

impl Clone for Token {
    fn clone(&self) -> (r: Self)
        ensures
            r@ == self@,
    {
        match self {
            Token::Let => Token::Let,
            Token::Colon => Token::Colon,
            Token::Equal => Token::Equal,
            Token::Semicolon => Token::Semicolon,
            Token::Plus => Token::Plus,
            Token::Minus => Token::Minus,
            Token::Star => Token::Star,
            Token::Slash => Token::Slash,
            Token::LParen => Token::LParen,
            Token::RParen => Token::RParen,
            Token::Number(n) => Token::Number(n.clone()),
            Token::String(s) => Token::String(s.clone()),
            Token::Identifier(name) => Token::Identifier(name.clone()),
            Token::Type(name) => Token::Type(name.clone()),
            Token::EOF => Token::EOF,
        }
    }
}

/// The name and payload of a token, as diagnostics show it.
pub open spec fn token_label(t: TokenView) -> Seq<char> {
    match t {
        TokenView::Let => "Let"@,
        TokenView::Colon => "Colon"@,
        TokenView::Equal => "Equal"@,
        TokenView::Semicolon => "Semicolon"@,
        TokenView::Plus => "Plus"@,
        TokenView::Minus => "Minus"@,
        TokenView::Star => "Star"@,
        TokenView::Slash => "Slash"@,
        TokenView::LParen => "LParen"@,
        TokenView::RParen => "RParen"@,
        TokenView::Number(n) => "Number("@ + n + ")"@,
        TokenView::String(s) => "String(\""@ + s + "\")"@,
        TokenView::Identifier(name) => "Identifier(\""@ + name + "\")"@,
        TokenView::Type(name) => "Type(\""@ + name + "\")"@,
        TokenView::EOF => "EOF"@,
    }
}

fn labelled(name: &str, payload: &str, close: &str) -> (r: String)
    ensures
        r@ == name@ + payload@ + close@,
{
    let mut out = name.to_owned();
    out.append(payload);
    out.append(close);
    out
}

impl Token {
    /// Whether two tokens are of the same kind and carry the same payload.
    pub fn same_as(&self, other: &Token) -> (r: bool)
        ensures
            r == (self@ == other@),
    {
        match (self, other) {
            (Token::Let, Token::Let) => true,
            (Token::Colon, Token::Colon) => true,
            (Token::Equal, Token::Equal) => true,
            (Token::Semicolon, Token::Semicolon) => true,
            (Token::Plus, Token::Plus) => true,
            (Token::Minus, Token::Minus) => true,
            (Token::Star, Token::Star) => true,
            (Token::Slash, Token::Slash) => true,
            (Token::LParen, Token::LParen) => true,
            (Token::RParen, Token::RParen) => true,
            (Token::Number(a), Token::Number(b)) => a.same_as(b),
            (Token::String(a), Token::String(b)) => *a == *b,
            (Token::Identifier(a), Token::Identifier(b)) => *a == *b,
            (Token::Type(a), Token::Type(b)) => *a == *b,
            (Token::EOF, Token::EOF) => true,
            _ => false,
        }
    }

    pub fn label(&self) -> (r: String)
        ensures
            r@ == token_label(self@),
    {
        match self {
            Token::Let => "Let".to_owned(),
            Token::Colon => "Colon".to_owned(),
            Token::Equal => "Equal".to_owned(),
            Token::Semicolon => "Semicolon".to_owned(),
            Token::Plus => "Plus".to_owned(),
            Token::Minus => "Minus".to_owned(),
            Token::Star => "Star".to_owned(),
            Token::Slash => "Slash".to_owned(),
            Token::LParen => "LParen".to_owned(),
            Token::RParen => "RParen".to_owned(),
            Token::Number(n) => labelled("Number(", n.text(), ")"),
            Token::String(s) => labelled("String(\"", s.as_str(), "\")"),
            Token::Identifier(name) => labelled("Identifier(\"", name.as_str(), "\")"),
            Token::Type(name) => labelled("Type(\"", name.as_str(), "\")"),
            Token::EOF => "EOF".to_owned(),
        }
    }
}

/// A token with the line and column of its first character.
#[derive(Debug, PartialEq)]
pub struct SpannedToken {
    pub token: Token,
    pub line: usize,
    pub column: usize,
}

pub struct SpannedTokenView {
    pub token: TokenView,
    pub line: usize,
    pub column: usize,
}

impl View for SpannedToken {
    type V = SpannedTokenView;

    open spec fn view(&self) -> SpannedTokenView {
        SpannedTokenView { token: self.token@, line: self.line, column: self.column }
    }
}

impl Clone for SpannedToken {
    fn clone(&self) -> (r: Self)
        ensures
            r@ == self@,
    {
        SpannedToken { token: self.token.clone(), line: self.line, column: self.column }
    }
}

/// The views of a vector of tokens, in order.
pub open spec fn token_views(tokens: Seq<SpannedToken>) -> Seq<SpannedTokenView> {
    Seq::new(tokens.len(), |i: int| tokens[i]@)
}

/// Why a text has no token stream.
#[derive(Debug, PartialEq)]
pub enum LexicalError {
    /// A character that begins no token.
    UnknownCharacter { character: char, line: usize, column: usize },
    /// A run of digits and points that is no numeral, such as `1.2.3`.
    MalformedNumber { text: String, line: usize, column: usize },
}

pub enum LexicalErrorView {
    UnknownCharacter { character: char, line: usize, column: usize },
    MalformedNumber { text: Seq<char>, line: usize, column: usize },
}

impl View for LexicalError {
    type V = LexicalErrorView;

    open spec fn view(&self) -> LexicalErrorView {
        match self {
            LexicalError::UnknownCharacter { character, line, column } => {
                LexicalErrorView::UnknownCharacter {
                    character: *character,
                    line: *line,
                    column: *column,
                }
            },
            LexicalError::MalformedNumber { text, line, column } => {
                LexicalErrorView::MalformedNumber { text: text@, line: *line, column: *column }
            },
        }
    }
}

impl Clone for LexicalError {
    fn clone(&self) -> (r: Self)
        ensures
            r@ == self@,
    {
        match self {
            LexicalError::UnknownCharacter { character, line, column } => {
                LexicalError::UnknownCharacter {
                    character: *character,
                    line: *line,
                    column: *column,
                }
            },
            LexicalError::MalformedNumber { text, line, column } => LexicalError::MalformedNumber {
                text: text.clone(),
                line: *line,
                column: *column,
            },
        }
    }
}

/// The diagnostic text of a lexical error.
pub open spec fn lexical_message(e: LexicalErrorView) -> Seq<char> {
    match e {
        LexicalErrorView::UnknownCharacter { character, .. } => "Unknown character: "@.push(
            character,
        ),
        LexicalErrorView::MalformedNumber { text, .. } => "Malformed number: "@ + text,
    }
}

impl LexicalError {
    pub fn message(&self) -> (r: String)
        ensures
            r@ == lexical_message(self@),
    {
        match self {
            LexicalError::UnknownCharacter { character, .. } => {
                let mut out = "Unknown character: ".to_owned();
                out.push(*character);
                out
            },
            LexicalError::MalformedNumber { text, .. } => {
                let mut out = "Malformed number: ".to_owned();
                out.append(text.as_str());
                out
            },
        }
    }
}

/// The line of the character at offset `pos`: one more than the number of
/// line feeds before it.
pub open spec fn line_at(s: Seq<char>, pos: int) -> int
    decreases pos,
{
    if pos <= 0 || pos > s.len() {
        1
    } else if s[pos - 1] == '\n' {
        line_at(s, pos - 1) + 1
    } else {
        line_at(s, pos - 1)
    }
}

/// The column of the character at offset `pos`: one more than the number
/// of characters between it and the last line feed before it.
pub open spec fn column_at(s: Seq<char>, pos: int) -> int
    decreases pos,
{
    if pos <= 0 || pos > s.len() {
        1
    } else if s[pos - 1] == '\n' {
        1
    } else {
        column_at(s, pos - 1) + 1
    }
}

/// Lines and columns start at 1 and grow by at most one per character.
pub proof fn lemma_position_bounds(s: Seq<char>, pos: int)
    requires
        0 <= pos <= s.len(),
    ensures
        1 <= line_at(s, pos) <= pos + 1,
        1 <= column_at(s, pos) <= pos + 1,
    decreases pos,
{
    if pos > 0 {
        lemma_position_bounds(s, pos - 1);
    }
}

/// The token that a run of identifier characters makes.
pub open spec fn word_token(word: Seq<char>) -> TokenView {
    if word == "let"@ {
        TokenView::Let
    } else if word == "number"@ || word == "string"@ {
        TokenView::Type(word)
    } else {
        TokenView::Identifier(word)
    }
}

/// The token that a single operator or punctuation character makes.
pub open spec fn punctuation(c: char) -> Option<TokenView> {
    if c == '+' {
        Some(TokenView::Plus)
    } else if c == '-' {
        Some(TokenView::Minus)
    } else if c == '*' {
        Some(TokenView::Star)
    } else if c == '/' {
        Some(TokenView::Slash)
    } else if c == '(' {
        Some(TokenView::LParen)
    } else if c == ')' {
        Some(TokenView::RParen)
    } else if c == ':' {
        Some(TokenView::Colon)
    } else if c == ';' {
        Some(TokenView::Semicolon)
    } else if c == '=' {
        Some(TokenView::Equal)
    } else {
        None
    }
}

/// What is read at one place of the text: a token or a failure, and the
/// offset at which reading stops.
pub struct Lexeme {
    pub token: Result<TokenView, LexicalErrorView>,
    pub end: int,
}

/// What stands at offset `start`, which is past any whitespace.
///
/// A letter starts the longest run of identifier characters; a digit the
/// longest run of digits and points, which must be a numeral; a quote a
/// string that runs to the next quote or, without one, to the end of the
/// text. Past the end stands `EOF`. An unknown character is not consumed.
pub open spec fn lexeme_at(s: Seq<char>, start: int) -> Lexeme {
    if !(0 <= start < s.len()) {
        Lexeme { token: Ok(TokenView::EOF), end: start }
    } else if letter(s[start]) {
        let end = run_end(s, start, ident_class());
        Lexeme { token: Ok(word_token(s.subrange(start, end))), end }
    } else if digit(s[start]) {
        let end = run_end(s, start, numeral_class());
        let run = s.subrange(start, end);
        if is_numeral(run) {
            Lexeme { token: Ok(TokenView::Number(canonical(run))), end }
        } else {
            Lexeme {
                token: Err(
                    LexicalErrorView::MalformedNumber {
                        text: run,
                        line: line_at(s, start) as usize,
                        column: column_at(s, start) as usize,
                    },
                ),
                end,
            }
        }
    } else if s[start] == '"' {
        let close = run_end(s, start + 1, unquoted_class());
        Lexeme {
            token: Ok(TokenView::String(s.subrange(start + 1, close))),
            end: if close < s.len() {
                close + 1
            } else {
                close
            },
        }
    } else {
        match punctuation(s[start]) {
            Some(token) => Lexeme { token: Ok(token), end: start + 1 },
            None => Lexeme {
                token: Err(
                    LexicalErrorView::UnknownCharacter {
                        character: s[start],
                        line: line_at(s, start) as usize,
                        column: column_at(s, start) as usize,
                    },
                ),
                end: start,
            },
        }
    }
}

/// Where the next token after offset `pos` begins: past the whitespace.
pub open spec fn token_start(s: Seq<char>, pos: int) -> int {
    run_end(s, pos, whitespace_class())
}

/// The next token at or after offset `pos`, with its position.
pub open spec fn next_token_at(s: Seq<char>, pos: int) -> Result<
    SpannedTokenView,
    LexicalErrorView,
> {
    let start = token_start(s, pos);
    match lexeme_at(s, start).token {
        Ok(token) => Ok(
            SpannedTokenView {
                token,
                line: line_at(s, start) as usize,
                column: column_at(s, start) as usize,
            },
        ),
        Err(e) => Err(e),
    }
}

/// Every token but `EOF` consumes at least one character, and none reads
/// past the end of the text.
pub proof fn lemma_lexeme_progress(s: Seq<char>, pos: int)
    requires
        0 <= pos <= s.len(),
    ensures
        pos <= token_start(s, pos) <= lexeme_at(s, token_start(s, pos)).end <= s.len(),
        lexeme_at(s, token_start(s, pos)).token matches Ok(token) && !(token is EOF)
            ==> token_start(s, pos) < lexeme_at(s, token_start(s, pos)).end,
        lexeme_at(s, token_start(s, pos)).token matches Ok(token) && token is EOF
            ==> token_start(s, pos) == s.len(),
{
    lemma_run_end(s, pos, whitespace_class());
    let start = token_start(s, pos);
    if start < s.len() {
        lemma_run_end(s, start, ident_class());
        lemma_run_end(s, start, numeral_class());
        lemma_run_end(s, start + 1, unquoted_class());
    }
}

/// The tokens of the text from offset `pos` on, without the closing `EOF`,
/// or the first lexical error.
pub open spec fn tokens_from(s: Seq<char>, pos: int) -> Result<
    Seq<SpannedTokenView>,
    LexicalErrorView,
>
    decreases s.len() - pos,
{
    if !(0 <= pos <= s.len()) {
        Ok(Seq::empty())
    } else {
        match next_token_at(s, pos) {
            Err(e) => Err(e),
            Ok(first) => if first.token is EOF {
                Ok(Seq::empty())
            } else {
                proof {
                    lemma_lexeme_progress(s, pos);
                }
                match tokens_from(s, lexeme_at(s, token_start(s, pos)).end) {
                    Err(e) => Err(e),
                    Ok(rest) => Ok(seq![first] + rest),
                }
            },
        }
    }
}

/// Where reading all tokens from offset `pos` on stops: at the end of the
/// text, or where the failing lexeme ends.
pub open spec fn halt_offset(s: Seq<char>, pos: int) -> int
    decreases s.len() - pos,
{
    if !(0 <= pos <= s.len()) {
        pos
    } else {
        let lexeme = lexeme_at(s, token_start(s, pos));
        match lexeme.token {
            Err(_) => lexeme.end,
            Ok(token) => if token is EOF {
                lexeme.end
            } else {
                proof {
                    lemma_lexeme_progress(s, pos);
                }
                halt_offset(s, lexeme.end)
            },
        }
    }
}

/// A cursor over a source text that tracks line and column.
pub struct Lexer {
    input: Vec<char>,
    position: usize,
    line: usize,
    column: usize,
}

impl Lexer {
    /// The text being read.
    pub closed spec fn source(&self) -> Seq<char> {
        self.input@
    }

    /// The offset of the next character to read.
    pub closed spec fn offset(&self) -> int {
        self.position as int
    }

    /// The cursor is inside the text, and the line and column are those of
    /// its offset.
    pub closed spec fn well_formed(&self) -> bool {
        &&& self.position <= self.input.len() < usize::MAX
        &&& self.line == line_at(self.input@, self.position as int)
        &&& self.column == column_at(self.input@, self.position as int)
    }

    /// Whether a lexer can read `input`. Lines and columns are counted in
    /// `usize`, so a text must have fewer than `usize::MAX` characters.
    pub fn accepts(input: &str) -> (r: bool)
        ensures
            r == (input@.len() < usize::MAX),
    {
        input.unicode_len() < usize::MAX
    }

    pub fn new(input: &str) -> (lexer: Self)
        requires
            input@.len() < usize::MAX,
        ensures
            lexer.well_formed(),
            lexer.source() == input@,
            lexer.offset() == 0,
    {
        Self { input: chars_of(input), position: 0, line: 1, column: 1 }
    }

    /// Reads every token up to the end of the text.
    pub fn collect_tokens(&mut self) -> (r: Result<Vec<SpannedToken>, LexicalError>)
        requires
            old(self).well_formed(),
        ensures
            final(self).well_formed(),
            final(self).source() == old(self).source(),
            final(self).offset() == halt_offset(old(self).source(), old(self).offset()),
            match r {
                Ok(tokens) => Ok(token_views(tokens@)),
                Err(e) => Err(e@),
            } == tokens_from(old(self).source(), old(self).offset()),
    {
        let mut tokens: Vec<SpannedToken> = Vec::new();
        let ghost s = self.input@;
        let ghost origin = self.position as int;
        loop
            invariant_except_break
                self.well_formed(),
                self.source() == s,
                s == old(self).source(),
                origin == old(self).offset(),
                halt_offset(s, origin) == halt_offset(s, self.offset()),
                tokens_from(s, origin) == match tokens_from(s, self.offset()) {
                    Ok(rest) => Ok(token_views(tokens@) + rest),
                    Err(e) => Err(e),
                },
            ensures
                self.well_formed(),
                self.source() == s,
                self.offset() == halt_offset(s, origin),
                tokens_from(s, origin) == Ok::<Seq<SpannedTokenView>, LexicalErrorView>(
                    token_views(tokens@),
                ),
            decreases s.len() - self.offset(),
        {
            let ghost before = self.position as int;
            let ghost earlier = token_views(tokens@);
            proof {
                lemma_lexeme_progress(s, before);
            }
            match self.next_token() {
                Err(e) => {
                    return Err(e);
                },
                Ok(next_token) => {
                    if let Token::EOF = next_token.token {
                        assert(earlier + Seq::<SpannedTokenView>::empty() =~= earlier);
                        break;
                    }
                    tokens.push(next_token);
                    proof {
                        let first = next_token_at(s, before)->Ok_0;
                        assert(token_views(tokens@) =~= earlier.push(first));
                        match tokens_from(s, self.offset()) {
                            Ok(rest) => {
                                assert(earlier + (seq![first] + rest) =~= token_views(tokens@)
                                    + rest);
                            },
                            Err(_) => {},
                        }
                    }
                },
            }
        }
        Ok(tokens)
    }

    fn peek(&self) -> (c: Option<char>)
        requires
            self.well_formed(),
        ensures
            c == if self.offset() < self.source().len() {
                Some(self.source()[self.offset()])
            } else {
                None
            },
    {
        if self.position < self.input.len() {
            Some(self.input[self.position])
        } else {
            None
        }
    }

    fn advance(&mut self)
        requires
            old(self).well_formed(),
        ensures
            final(self).well_formed(),
            final(self).source() == old(self).source(),
            final(self).offset() == if old(self).offset() < old(self).source().len() {
                old(self).offset() + 1
            } else {
                old(self).offset()
            },
    {
        if self.position < self.input.len() {
            proof {
                lemma_position_bounds(self.input@, self.position as int);
            }
            if self.input[self.position] == '\n' {
                self.line += 1;
                self.column = 1;
            } else {
                self.column += 1;
            }
            self.position += 1;
        }
    }

    fn skip_whitespace(&mut self)
        requires
            old(self).well_formed(),
        ensures
            final(self).well_formed(),
            final(self).source() == old(self).source(),
            final(self).offset() == token_start(old(self).source(), old(self).offset()),
    {
        let ghost s = self.input@;
        let ghost origin = self.position as int;
        while self.position < self.input.len() && is_whitespace(self.input[self.position])
            invariant
                self.well_formed(),
                self.source() == s,
                0 <= origin <= self.offset() <= s.len(),
                token_start(s, origin) == token_start(s, self.offset()),
            decreases s.len() - self.offset(),
        {
            self.advance();
        }
    }

    /// Reads the next token and moves past it. At the end of the text the
    /// token is `EOF`, however often it is asked for.
    pub fn next_token(&mut self) -> (r: Result<SpannedToken, LexicalError>)
        requires
            old(self).well_formed(),
        ensures
            final(self).well_formed(),
            final(self).source() == old(self).source(),
            final(self).offset() == lexeme_at(
                old(self).source(),
                token_start(old(self).source(), old(self).offset()),
            ).end,
            result_view(r) == next_token_at(old(self).source(), old(self).offset()),
    {
        self.skip_whitespace();
        let line = self.line;
        let column = self.column;
        proof {
            lemma_position_bounds(self.input@, self.position as int);
        }
        let token = match self.peek() {
            None => Token::EOF,
            Some(c) => {
                if is_letter(c) {
                    self.read_ident_or_keyword()
                } else if is_digit(c) {
                    match self.read_number() {
                        Ok(token) => token,
                        Err(e) => {
                            return Err(e);
                        },
                    }
                } else if c == '"' {
                    self.read_string()
                } else if c == '+' {
                    self.advance();
                    Token::Plus
                } else if c == '-' {
                    self.advance();
                    Token::Minus
                } else if c == '*' {
                    self.advance();
                    Token::Star
                } else if c == '/' {
                    self.advance();
                    Token::Slash
                } else if c == '(' {
                    self.advance();
                    Token::LParen
                } else if c == ')' {
                    self.advance();
                    Token::RParen
                } else if c == ':' {
                    self.advance();
                    Token::Colon
                } else if c == ';' {
                    self.advance();
                    Token::Semicolon
                } else if c == '=' {
                    self.advance();
                    Token::Equal
                } else {
                    return Err(LexicalError::UnknownCharacter { character: c, line, column });
                }
            },
        };
        Ok(SpannedToken { token, line, column })
    }

    fn read_ident_or_keyword(&mut self) -> (token: Token)
        requires
            old(self).well_formed(),
        ensures
            final(self).well_formed(),
            final(self).source() == old(self).source(),
            final(self).offset() == run_end(old(self).source(), old(self).offset(), ident_class()),
            token@ == word_token(
                old(self).source().subrange(old(self).offset(), final(self).offset()),
            ),
    {
        let ghost s = self.input@;
        let ghost origin = self.position as int;
        let mut ident = String::new();
        while self.position < self.input.len() && is_ident_char(self.input[self.position])
            invariant
                self.well_formed(),
                self.source() == s,
                0 <= origin <= self.offset() <= s.len(),
                run_end(s, origin, ident_class()) == run_end(s, self.offset(), ident_class()),
                ident@ == s.subrange(origin, self.offset()),
            decreases s.len() - self.offset(),
        {
            ident.push(self.input[self.position]);
            self.advance();
            assert(s.subrange(origin, self.offset()) =~= s.subrange(
                origin,
                self.offset() - 1,
            ).push(s[self.offset() - 1]));
        }
        let keyword_let = "let".to_owned();
        let type_number = "number".to_owned();
        let type_string = "string".to_owned();
        if ident == keyword_let {
            Token::Let
        } else if ident == type_number || ident == type_string {
            Token::Type(ident)
        } else {
            Token::Identifier(ident)
        }
    }

    fn read_string(&mut self) -> (token: Token)
        requires
            old(self).well_formed(),
            old(self).offset() < old(self).source().len(),
        ensures
            final(self).well_formed(),
            final(self).source() == old(self).source(),
            ({
                let s = old(self).source();
                let close = run_end(s, old(self).offset() + 1, unquoted_class());
                &&& token@ == TokenView::String(s.subrange(old(self).offset() + 1, close))
                &&& final(self).offset() == if close < s.len() {
                    close + 1
                } else {
                    close
                }
            }),
    {
        let ghost s = self.input@;
        self.advance();
        let ghost origin = self.position as int;
        let mut string = String::new();
        while self.position < self.input.len() && self.input[self.position] != '"'
            invariant
                self.well_formed(),
                self.source() == s,
                0 <= origin <= self.offset() <= s.len(),
                run_end(s, origin, unquoted_class()) == run_end(s, self.offset(), unquoted_class()),
                string@ == s.subrange(origin, self.offset()),
            decreases s.len() - self.offset(),
        {
            string.push(self.input[self.position]);
            self.advance();
            assert(s.subrange(origin, self.offset()) =~= s.subrange(
                origin,
                self.offset() - 1,
            ).push(s[self.offset() - 1]));
        }
        self.advance();
        Token::String(string)
    }

    fn read_number(&mut self) -> (r: Result<Token, LexicalError>)
        requires
            old(self).well_formed(),
        ensures
            final(self).well_formed(),
            final(self).source() == old(self).source(),
            final(self).offset() == run_end(
                old(self).source(),
                old(self).offset(),
                numeral_class(),
            ),
            ({
                let s = old(self).source();
                let run = s.subrange(old(self).offset(), final(self).offset());
                result_view(r) == if is_numeral(run) {
                    Ok::<TokenView, LexicalErrorView>(TokenView::Number(canonical(run)))
                } else {
                    Err(
                        LexicalErrorView::MalformedNumber {
                            text: run,
                            line: line_at(s, old(self).offset()) as usize,
                            column: column_at(s, old(self).offset()) as usize,
                        },
                    )
                }
            }),
    {
        let ghost s = self.input@;
        let ghost origin = self.position as int;
        let line = self.line;
        let column = self.column;
        let mut num = String::new();
        while self.position < self.input.len() && is_numeral_char(self.input[self.position])
            invariant
                self.well_formed(),
                self.source() == s,
                0 <= origin <= self.offset() <= s.len(),
                run_end(s, origin, numeral_class()) == run_end(s, self.offset(), numeral_class()),
                num@ == s.subrange(origin, self.offset()),
            decreases s.len() - self.offset(),
        {
            num.push(self.input[self.position]);
            self.advance();
            assert(s.subrange(origin, self.offset()) =~= s.subrange(
                origin,
                self.offset() - 1,
            ).push(s[self.offset() - 1]));
        }
        match Decimal::parse(num.as_str()) {
            Some(value) => Ok(Token::Number(value)),
            None => Err(LexicalError::MalformedNumber { text: num, line, column }),
        }
    }
}

} // verus!
