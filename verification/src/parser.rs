//! Parsing: from tokens to a program, by recursive descent.
//!
//! ```text
//! program    := statement*
//! statement  := "let" identifier ":" type "=" expression ";"
//! expression := term
//! term       := factor (("+" | "-") factor)*
//! factor     := primary (("*" | "/") primary)*
//! primary    := number | string | identifier | "(" expression ")"
//! ```
//!
//! The grammar is written down once as spec functions over a sequence of
//! tokens (`parse_program_at` and the functions it uses); the `Parser`
//! computes exactly what they say.

use crate::ast::{
    statement_views, BinaryOp, Expr, ExprView, LetStatement, LetStatementView, Positioned, Program,
};
use crate::lexer::{token_label, token_views, SpannedToken, SpannedTokenView, Token, TokenView};
use vstd::prelude::*;

verus! {

/// Why a token sequence is no program. `found` is the token that stands
/// where something else was required; past the last token it is `EOF` at
/// line 0, column 0.
#[derive(Debug, PartialEq)]
pub enum SyntaxError {
    /// The grammar requires the token `expected` here.
    UnexpectedToken { expected: Token, found: SpannedToken },
    /// The name of the variable is missing after `let`.
    ExpectedIdentifier { found: SpannedToken },
    /// The type annotation is missing after the colon.
    ExpectedType { found: SpannedToken },
    /// No expression can start with the token found.
    ExpectedExpression { found: SpannedToken },
}

pub enum SyntaxErrorView {
    UnexpectedToken { expected: TokenView, found: SpannedTokenView },
    ExpectedIdentifier { found: SpannedTokenView },
    ExpectedType { found: SpannedTokenView },
    ExpectedExpression { found: SpannedTokenView },
}

impl View for SyntaxError {
    type V = SyntaxErrorView;

    open spec fn view(&self) -> SyntaxErrorView {
        match self {
            SyntaxError::UnexpectedToken { expected, found } => SyntaxErrorView::UnexpectedToken {
                expected: expected@,
                found: found@,
            },
            SyntaxError::ExpectedIdentifier { found } => SyntaxErrorView::ExpectedIdentifier {
                found: found@,
            },
            SyntaxError::ExpectedType { found } => SyntaxErrorView::ExpectedType { found: found@ },
            SyntaxError::ExpectedExpression { found } => SyntaxErrorView::ExpectedExpression {
                found: found@,
            },
        }
    }
}

impl Clone for SyntaxError {
    fn clone(&self) -> (r: Self)
        ensures
            r@ == self@,
    {
        match self {
            SyntaxError::UnexpectedToken { expected, found } => SyntaxError::UnexpectedToken {
                expected: expected.clone(),
                found: found.clone(),
            },
            SyntaxError::ExpectedIdentifier { found } => SyntaxError::ExpectedIdentifier {
                found: found.clone(),
            },
            SyntaxError::ExpectedType { found } => SyntaxError::ExpectedType {
                found: found.clone(),
            },
            SyntaxError::ExpectedExpression { found } => SyntaxError::ExpectedExpression {
                found: found.clone(),
            },
        }
    }
}

/// The diagnostic text of a syntax error.
pub open spec fn syntax_message(e: SyntaxErrorView) -> Seq<char> {
    match e {
        SyntaxErrorView::UnexpectedToken { expected, .. } => "Expected: "@ + token_label(expected),
        SyntaxErrorView::ExpectedIdentifier { found } => "Expected identifier name, found "@
            + token_label(found.token),
        SyntaxErrorView::ExpectedType { found } => "Expected type annotation, found "@
            + token_label(found.token),
        SyntaxErrorView::ExpectedExpression { found } =>
            "Expected expression, found unexpected token: "@ + token_label(found.token),
    }
}

impl SyntaxError {
    pub fn message(&self) -> (r: String)
        ensures
            r@ == syntax_message(self@),
    {
        match self {
            SyntaxError::UnexpectedToken { expected, .. } => {
                let mut out = "Expected: ".to_owned();
                out.append(expected.label().as_str());
                out
            },
            SyntaxError::ExpectedIdentifier { found } => {
                let mut out = "Expected identifier name, found ".to_owned();
                out.append(found.token.label().as_str());
                out
            },
            SyntaxError::ExpectedType { found } => {
                let mut out = "Expected type annotation, found ".to_owned();
                out.append(found.token.label().as_str());
                out
            },
            SyntaxError::ExpectedExpression { found } => {
                let mut out = "Expected expression, found unexpected token: ".to_owned();
                out.append(found.token.label().as_str());
                out
            },
        }
    }
}

/// What stands for the token past the end of the sequence.
pub open spec fn end_token() -> SpannedTokenView {
    SpannedTokenView { token: TokenView::EOF, line: 0, column: 0 }
}

/// The token at index `pos`, or `end_token` past the end.
pub open spec fn token_at(tokens: Seq<SpannedTokenView>, pos: int) -> SpannedTokenView {
    if 0 <= pos < tokens.len() {
        tokens[pos]
    } else {
        end_token()
    }
}

/// The index after the token at `pos`; the end of the sequence is never
/// passed.
pub open spec fn after(tokens: Seq<SpannedTokenView>, pos: int) -> int {
    if 0 <= pos < tokens.len() {
        pos + 1
    } else {
        pos
    }
}

/// Requires the token `expected` at index `pos` and steps over it.
pub open spec fn expect_at(tokens: Seq<SpannedTokenView>, pos: int, expected: TokenView) -> Result<
    int,
    SyntaxErrorView,
> {
    if token_at(tokens, pos).token == expected {
        Ok(after(tokens, pos))
    } else {
        Err(SyntaxErrorView::UnexpectedToken { expected, found: token_at(tokens, pos) })
    }
}

/// The operator that a token is between two factors of a term.
pub open spec fn term_operator(t: TokenView) -> Option<BinaryOp> {
    match t {
        TokenView::Plus => Some(BinaryOp::Add),
        TokenView::Minus => Some(BinaryOp::Sub),
        _ => None,
    }
}

/// The operator that a token is between two primaries of a factor.
pub open spec fn factor_operator(t: TokenView) -> Option<BinaryOp> {
    match t {
        TokenView::Star => Some(BinaryOp::Mul),
        TokenView::Slash => Some(BinaryOp::Div),
        _ => None,
    }
}

/// How many tokens stand at or after index `pos`.
pub open spec fn remaining(tokens: Seq<SpannedTokenView>, pos: int) -> nat {
    if pos <= tokens.len() {
        (tokens.len() - pos) as nat
    } else {
        0
    }
}

/// The expression `left op right`.
pub open spec fn binary(left: ExprView, op: BinaryOp, right: ExprView) -> ExprView {
    ExprView::Binary { left: Box::new(left), op, right: Box::new(right) }
}

/// `primary := number | string | identifier | "(" expression ")"`,
/// read at index `pos`: the expression and the index after it.
pub open spec fn parse_primary_at(tokens: Seq<SpannedTokenView>, pos: int) -> Result<
    (ExprView, int),
    SyntaxErrorView,
>
    decreases remaining(tokens, pos), 0int,
{
    let found = token_at(tokens, pos);
    match found.token {
        TokenView::LParen => match parse_term_at(tokens, pos + 1) {
            Err(e) => Err(e),
            Ok((inner, close)) => match expect_at(tokens, close, TokenView::RParen) {
                Err(e) => Err(e),
                Ok(next) => Ok((inner, next)),
            },
        },
        TokenView::Number(n) => Ok((ExprView::Number(n), pos + 1)),
        TokenView::String(s) => Ok((ExprView::String(s), pos + 1)),
        TokenView::Identifier(name) => Ok((ExprView::Identifier(name), pos + 1)),
        _ => Err(SyntaxErrorView::ExpectedExpression { found }),
    }
}

/// `(("*" | "/") primary)*` read at index `pos`, folded to the left onto
/// `left`. An operand always ends after the index where it starts (see
/// `lemma_expression_progress`); the comparison is there for termination.
pub open spec fn factor_rest_at(tokens: Seq<SpannedTokenView>, pos: int, left: ExprView) -> Result<
    (ExprView, int),
    SyntaxErrorView,
>
    decreases remaining(tokens, pos), 1int,
{
    match factor_operator(token_at(tokens, pos).token) {
        None => Ok((left, pos)),
        Some(op) => match parse_primary_at(tokens, pos + 1) {
            Err(e) => Err(e),
            Ok((right, next)) => if next > pos {
                factor_rest_at(tokens, next, binary(left, op, right))
            } else {
                Ok((binary(left, op, right), next))
            },
        },
    }
}

/// `factor := primary (("*" | "/") primary)*`, read at index `pos`.
pub open spec fn parse_factor_at(tokens: Seq<SpannedTokenView>, pos: int) -> Result<
    (ExprView, int),
    SyntaxErrorView,
>
    decreases remaining(tokens, pos), 2int,
{
    match parse_primary_at(tokens, pos) {
        Err(e) => Err(e),
        Ok((left, next)) => if next >= pos {
            factor_rest_at(tokens, next, left)
        } else {
            Ok((left, next))
        },
    }
}

/// `(("+" | "-") factor)*` read at index `pos`, folded to the left onto
/// `left`.
pub open spec fn term_rest_at(tokens: Seq<SpannedTokenView>, pos: int, left: ExprView) -> Result<
    (ExprView, int),
    SyntaxErrorView,
>
    decreases remaining(tokens, pos), 3int,
{
    match term_operator(token_at(tokens, pos).token) {
        None => Ok((left, pos)),
        Some(op) => match parse_factor_at(tokens, pos + 1) {
            Err(e) => Err(e),
            Ok((right, next)) => if next > pos {
                term_rest_at(tokens, next, binary(left, op, right))
            } else {
                Ok((binary(left, op, right), next))
            },
        },
    }
}

/// `term := factor (("+" | "-") factor)*`, read at index `pos`.
pub open spec fn parse_term_at(tokens: Seq<SpannedTokenView>, pos: int) -> Result<
    (ExprView, int),
    SyntaxErrorView,
>
    decreases remaining(tokens, pos), 4int,
{
    match parse_factor_at(tokens, pos) {
        Err(e) => Err(e),
        Ok((left, next)) => if next >= pos {
            term_rest_at(tokens, next, left)
        } else {
            Ok((left, next))
        },
    }
}

/// The outcome of reading the expression `e` up to index `next`.
pub open spec fn parsed(e: ExprView, next: int) -> Result<(ExprView, int), SyntaxErrorView> {
    Ok((e, next))
}

/// `expression := term`, read at index `pos`.
pub open spec fn parse_expression_at(tokens: Seq<SpannedTokenView>, pos: int) -> Result<
    (ExprView, int),
    SyntaxErrorView,
> {
    parse_term_at(tokens, pos)
}

/// An expression that is read ends after the index where it starts, and
/// inside the sequence.
pub proof fn lemma_expression_progress(tokens: Seq<SpannedTokenView>, pos: int)
    requires
        0 <= pos,
    ensures
        parse_primary_at(tokens, pos) matches Ok((_, next)) ==> pos < next <= tokens.len(),
        parse_factor_at(tokens, pos) matches Ok((_, next)) ==> pos < next <= tokens.len(),
        parse_term_at(tokens, pos) matches Ok((_, next)) ==> pos < next <= tokens.len(),
    decreases tokens.len() - pos, 4int,
{
    if pos < tokens.len() {
        if token_at(tokens, pos).token is LParen {
            lemma_expression_progress(tokens, pos + 1);
        }
        if let Ok((left, next)) = parse_primary_at(tokens, pos) {
            lemma_rest_progress(tokens, next, left);
        }
        if let Ok((left, next)) = parse_factor_at(tokens, pos) {
            lemma_rest_progress(tokens, next, left);
        }
    }
}

/// What follows the first operand ends at or after the index where it
/// starts, and inside the sequence.
pub proof fn lemma_rest_progress(tokens: Seq<SpannedTokenView>, pos: int, left: ExprView)
    requires
        0 <= pos <= tokens.len(),
    ensures
        factor_rest_at(tokens, pos, left) matches Ok((_, next)) ==> pos <= next <= tokens.len(),
        term_rest_at(tokens, pos, left) matches Ok((_, next)) ==> pos <= next <= tokens.len(),
    decreases tokens.len() - pos, 3int,
{
    if pos < tokens.len() {
        lemma_expression_progress(tokens, pos + 1);
        if let Some(op) = factor_operator(token_at(tokens, pos).token) {
            if let Ok((right, next)) = parse_primary_at(tokens, pos + 1) {
                lemma_rest_progress(tokens, next, binary(left, op, right));
            }
        }
        if let Some(op) = term_operator(token_at(tokens, pos).token) {
            if let Ok((right, next)) = parse_factor_at(tokens, pos + 1) {
                lemma_rest_progress(tokens, next, binary(left, op, right));
            }
        }
    }
}

/// The expression that a token is by itself: a number, a string or a
/// name.
pub open spec fn operand(t: TokenView) -> Option<ExprView> {
    match t {
        TokenView::Number(n) => Some(ExprView::Number(n)),
        TokenView::String(s) => Some(ExprView::String(s)),
        TokenView::Identifier(name) => Some(ExprView::Identifier(name)),
        _ => None,
    }
}

/// The tokens from index `pos` on are `x first y second z`, three operands
/// with two operators between them, and no operator follows.
pub open spec fn two_operations(
    tokens: Seq<SpannedTokenView>,
    pos: int,
    x: ExprView,
    y: ExprView,
    z: ExprView,
) -> bool {
    &&& 0 <= pos
    &&& pos + 5 <= tokens.len()
    &&& operand(tokens[pos].token) == Some(x)
    &&& operand(tokens[pos + 2].token) == Some(y)
    &&& operand(tokens[pos + 4].token) == Some(z)
    &&& term_operator(token_at(tokens, pos + 5).token) is None
    &&& factor_operator(token_at(tokens, pos + 5).token) is None
}

/// Sums and differences group to the left: `x - y - z` is `(x - y) - z`.
pub proof fn lemma_terms_group_left(
    tokens: Seq<SpannedTokenView>,
    pos: int,
    x: ExprView,
    first: BinaryOp,
    y: ExprView,
    second: BinaryOp,
    z: ExprView,
)
    requires
        two_operations(tokens, pos, x, y, z),
        term_operator(tokens[pos + 1].token) == Some(first),
        term_operator(tokens[pos + 3].token) == Some(second),
    ensures
        parse_expression_at(tokens, pos) == parsed(binary(binary(x, first, y), second, z), pos + 5),
{
    assert(factor_rest_at(tokens, pos + 1, x) == parsed(x, pos + 1));
    assert(factor_rest_at(tokens, pos + 3, y) == parsed(y, pos + 3));
    assert(factor_rest_at(tokens, pos + 5, z) == parsed(z, pos + 5));
    assert(parse_factor_at(tokens, pos + 2) == parsed(y, pos + 3));
    assert(parse_factor_at(tokens, pos + 4) == parsed(z, pos + 5));
    let whole = binary(binary(x, first, y), second, z);
    assert(term_rest_at(tokens, pos + 5, whole) == parsed(whole, pos + 5));
    assert(term_rest_at(tokens, pos + 3, binary(x, first, y)) == parsed(whole, pos + 5));
    assert(term_rest_at(tokens, pos + 1, x) == parsed(whole, pos + 5));
}

/// Products and quotients group to the left: `x / y / z` is `(x / y) / z`.
pub proof fn lemma_factors_group_left(
    tokens: Seq<SpannedTokenView>,
    pos: int,
    x: ExprView,
    first: BinaryOp,
    y: ExprView,
    second: BinaryOp,
    z: ExprView,
)
    requires
        two_operations(tokens, pos, x, y, z),
        factor_operator(tokens[pos + 1].token) == Some(first),
        factor_operator(tokens[pos + 3].token) == Some(second),
    ensures
        parse_expression_at(tokens, pos) == parsed(binary(binary(x, first, y), second, z), pos + 5),
{
    let whole = binary(binary(x, first, y), second, z);
    assert(parse_primary_at(tokens, pos + 2) == parsed(y, pos + 3));
    assert(parse_primary_at(tokens, pos + 4) == parsed(z, pos + 5));
    assert(factor_rest_at(tokens, pos + 5, whole) == parsed(whole, pos + 5));
    assert(factor_rest_at(tokens, pos + 3, binary(x, first, y)) == parsed(whole, pos + 5));
    assert(factor_rest_at(tokens, pos + 1, x) == parsed(whole, pos + 5));
    assert(parse_factor_at(tokens, pos) == parsed(whole, pos + 5));
    assert(term_rest_at(tokens, pos + 5, whole) == parsed(whole, pos + 5));
}

/// Products bind tighter than sums to their left: `x + y * z` is
/// `x + (y * z)`.
pub proof fn lemma_product_after_sum(
    tokens: Seq<SpannedTokenView>,
    pos: int,
    x: ExprView,
    sum: BinaryOp,
    y: ExprView,
    product: BinaryOp,
    z: ExprView,
)
    requires
        two_operations(tokens, pos, x, y, z),
        term_operator(tokens[pos + 1].token) == Some(sum),
        factor_operator(tokens[pos + 3].token) == Some(product),
    ensures
        parse_expression_at(tokens, pos) == parsed(binary(x, sum, binary(y, product, z)), pos + 5),
{
    let right = binary(y, product, z);
    let whole = binary(x, sum, right);
    assert(parse_primary_at(tokens, pos + 4) == parsed(z, pos + 5));
    assert(factor_rest_at(tokens, pos + 1, x) == parsed(x, pos + 1));
    assert(factor_rest_at(tokens, pos + 5, right) == parsed(right, pos + 5));
    assert(factor_rest_at(tokens, pos + 3, y) == parsed(right, pos + 5));
    assert(parse_factor_at(tokens, pos + 2) == parsed(right, pos + 5));
    assert(term_rest_at(tokens, pos + 5, whole) == parsed(whole, pos + 5));
    assert(term_rest_at(tokens, pos + 1, x) == parsed(whole, pos + 5));
}

/// Products bind tighter than sums to their right: `x * y + z` is
/// `(x * y) + z`.
pub proof fn lemma_product_before_sum(
    tokens: Seq<SpannedTokenView>,
    pos: int,
    x: ExprView,
    product: BinaryOp,
    y: ExprView,
    sum: BinaryOp,
    z: ExprView,
)
    requires
        two_operations(tokens, pos, x, y, z),
        factor_operator(tokens[pos + 1].token) == Some(product),
        term_operator(tokens[pos + 3].token) == Some(sum),
    ensures
        parse_expression_at(tokens, pos) == parsed(binary(binary(x, product, y), sum, z), pos + 5),
{
    let left = binary(x, product, y);
    let whole = binary(left, sum, z);
    assert(parse_primary_at(tokens, pos + 2) == parsed(y, pos + 3));
    assert(factor_rest_at(tokens, pos + 3, left) == parsed(left, pos + 3));
    assert(factor_rest_at(tokens, pos + 1, x) == parsed(left, pos + 3));
    assert(parse_factor_at(tokens, pos) == parsed(left, pos + 3));
    assert(factor_rest_at(tokens, pos + 5, z) == parsed(z, pos + 5));
    assert(parse_factor_at(tokens, pos + 4) == parsed(z, pos + 5));
    assert(term_rest_at(tokens, pos + 5, whole) == parsed(whole, pos + 5));
    assert(term_rest_at(tokens, pos + 3, left) == parsed(whole, pos + 5));
}

/// `statement := "let" identifier ":" type "=" expression ";"`, read at
/// index `pos`. The name, the annotation and the expression each carry the
/// position of their first token.
pub open spec fn parse_let_at(tokens: Seq<SpannedTokenView>, pos: int) -> Result<
    (LetStatementView, int),
    SyntaxErrorView,
> {
    match expect_at(tokens, pos, TokenView::Let) {
        Err(e) => Err(e),
        Ok(name_pos) => {
            let name_token = token_at(tokens, name_pos);
            match name_token.token {
                TokenView::Identifier(name) => match expect_at(
                    tokens,
                    name_pos + 1,
                    TokenView::Colon,
                ) {
                    Err(e) => Err(e),
                    Ok(type_pos) => {
                        let type_token = token_at(tokens, type_pos);
                        match type_token.token {
                            TokenView::Type(annotation) => match expect_at(
                                tokens,
                                type_pos + 1,
                                TokenView::Equal,
                            ) {
                                Err(e) => Err(e),
                                Ok(value_pos) => {
                                    let value_token = token_at(tokens, value_pos);
                                    match parse_expression_at(tokens, value_pos) {
                                        Err(e) => Err(e),
                                        Ok((value, end)) => match expect_at(
                                            tokens,
                                            end,
                                            TokenView::Semicolon,
                                        ) {
                                            Err(e) => Err(e),
                                            Ok(next) => Ok(
                                                (
                                                    LetStatementView {
                                                        name: Positioned {
                                                            value: name,
                                                            line: name_token.line,
                                                            column: name_token.column,
                                                        },
                                                        declared_type: Positioned {
                                                            value: annotation,
                                                            line: type_token.line,
                                                            column: type_token.column,
                                                        },
                                                        expression: Positioned {
                                                            value,
                                                            line: value_token.line,
                                                            column: value_token.column,
                                                        },
                                                    },
                                                    next,
                                                ),
                                            ),
                                        },
                                    }
                                },
                            },
                            _ => Err(SyntaxErrorView::ExpectedType { found: type_token }),
                        }
                    },
                },
                _ => Err(SyntaxErrorView::ExpectedIdentifier { found: name_token }),
            }
        },
    }
}

/// A statement that is read ends after the index where it starts, and
/// inside the sequence.
pub proof fn lemma_let_progress(tokens: Seq<SpannedTokenView>, pos: int)
    requires
        0 <= pos,
    ensures
        parse_let_at(tokens, pos) matches Ok((_, next)) ==> pos < next <= tokens.len(),
{
    if parse_let_at(tokens, pos) is Ok {
        let name_pos = expect_at(tokens, pos, TokenView::Let)->Ok_0;
        let type_pos = expect_at(tokens, name_pos + 1, TokenView::Colon)->Ok_0;
        let value_pos = expect_at(tokens, type_pos + 1, TokenView::Equal)->Ok_0;
        assert(value_pos == pos + 5);
        lemma_expression_progress(tokens, value_pos);
    }
}

/// `program := statement*`, read at index `pos` up to the end of the
/// sequence or to an `EOF` token: the statements in order, or the first
/// syntax error.
pub open spec fn parse_program_at(tokens: Seq<SpannedTokenView>, pos: int) -> Result<
    Seq<LetStatementView>,
    SyntaxErrorView,
>
    decreases tokens.len() - pos,
{
    if pos < 0 || token_at(tokens, pos).token is EOF {
        Ok(Seq::empty())
    } else {
        match parse_let_at(tokens, pos) {
            Err(e) => Err(e),
            Ok((first, next)) => {
                proof {
                    lemma_let_progress(tokens, pos);
                }
                match parse_program_at(tokens, next) {
                    Err(e) => Err(e),
                    Ok(rest) => Ok(seq![first] + rest),
                }
            },
        }
    }
}

/// Where reading a program from index `pos` stops when it succeeds: at
/// the end of the sequence or at its first `EOF` token.
pub open spec fn program_end(tokens: Seq<SpannedTokenView>, pos: int) -> int
    decreases tokens.len() - pos,
{
    if pos < 0 || token_at(tokens, pos).token is EOF {
        pos
    } else {
        match parse_let_at(tokens, pos) {
            Err(_) => pos,
            Ok((_, next)) => {
                proof {
                    lemma_let_progress(tokens, pos);
                }
                program_end(tokens, next)
            },
        }
    }
}

/// A cursor over a token sequence.
pub struct Parser {
    tokens: Vec<SpannedToken>,
    position: usize,
}

impl Parser {
    /// The tokens being read.
    pub closed spec fn tokens(&self) -> Seq<SpannedTokenView> {
        token_views(self.tokens@)
    }

    /// The index of the next token to read.
    pub closed spec fn cursor(&self) -> int {
        self.position as int
    }

    /// The cursor is inside the sequence or at its end.
    pub closed spec fn well_formed(&self) -> bool {
        self.position <= self.tokens.len()
    }

    pub fn new(tokens: Vec<SpannedToken>) -> (parser: Self)
        ensures
            parser.well_formed(),
            parser.tokens() == token_views(tokens@),
            parser.cursor() == 0,
    {
        Parser { tokens, position: 0 }
    }

    /// The token under the cursor, if the cursor is not at the end.
    fn peek(&self) -> (r: Option<&SpannedToken>)
        requires
            self.well_formed(),
        ensures
            match r {
                Some(t) => {
                    &&& self.cursor() < self.tokens().len()
                    &&& t@ == self.tokens()[self.cursor()]
                },
                None => self.cursor() == self.tokens().len(),
            },
    {
        if self.position < self.tokens.len() {
            Some(&self.tokens[self.position])
        } else {
            None
        }
    }

    /// A copy of the token under the cursor, for a diagnostic.
    fn found(&self) -> (r: SpannedToken)
        requires
            self.well_formed(),
        ensures
            r@ == token_at(self.tokens(), self.cursor()),
    {
        match self.peek() {
            Some(t) => t.clone(),
            None => SpannedToken { token: Token::EOF, line: 0, column: 0 },
        }
    }

    fn next(&mut self)
        requires
            old(self).well_formed(),
        ensures
            final(self).well_formed(),
            final(self).tokens() == old(self).tokens(),
            final(self).cursor() == after(old(self).tokens(), old(self).cursor()),
    {
        if self.position < self.tokens.len() {
            self.position += 1;
        }
    }

    fn expect(&mut self, expected: Token) -> (r: Result<(), SyntaxError>)
        requires
            old(self).well_formed(),
        ensures
            final(self).well_formed(),
            final(self).tokens() == old(self).tokens(),
            match expect_at(old(self).tokens(), old(self).cursor(), expected@) {
                Ok(next) => r is Ok && final(self).cursor() == next,
                Err(e) => r matches Err(x) && x@ == e,
            },
    {
        let matches = match self.peek() {
            Some(t) => t.token.same_as(&expected),
            None => expected.same_as(&Token::EOF),
        };
        if matches {
            self.next();
            Ok(())
        } else {
            Err(SyntaxError::UnexpectedToken { expected, found: self.found() })
        }
    }

    /// Reads statements up to the end of the tokens. On a syntax error the
    /// parser is left as it was.
    pub fn parse_program(&mut self) -> (r: Result<Program, SyntaxError>)
        requires
            old(self).well_formed(),
        ensures
            final(self).well_formed(),
            final(self).tokens() == old(self).tokens(),
            match parse_program_at(old(self).tokens(), old(self).cursor()) {
                Ok(statements) => r matches Ok(program) && program@ == statements
                    && final(self).cursor() == program_end(
                    old(self).tokens(),
                    old(self).cursor(),
                ),
                Err(e) => r matches Err(x) && x@ == e && final(self).cursor() == old(self).cursor(),
            },
    {
        let start = self.position;
        let ghost tokens = self.tokens();
        let mut statements: Vec<LetStatement> = Vec::new();
        loop
            invariant_except_break
                self.well_formed(),
                self.tokens() == tokens,
                tokens == old(self).tokens(),
                start == old(self).cursor(),
                0 <= start <= self.cursor(),
                program_end(tokens, start as int) == program_end(tokens, self.cursor()),
                parse_program_at(tokens, start as int) == match parse_program_at(
                    tokens,
                    self.cursor(),
                ) {
                    Ok(rest) => Ok(statement_views(statements@) + rest),
                    Err(e) => Err(e),
                },
            ensures
                self.well_formed(),
                self.tokens() == tokens,
                self.cursor() == program_end(tokens, start as int),
                parse_program_at(tokens, start as int) == Ok::<
                    Seq<LetStatementView>,
                    SyntaxErrorView,
                >(statement_views(statements@)),
            decreases tokens.len() - self.cursor(),
        {
            let at_end = match self.peek() {
                None => true,
                Some(t) => t.token.same_as(&Token::EOF),
            };
            let ghost earlier = statement_views(statements@);
            if at_end {
                assert(earlier + Seq::<LetStatementView>::empty() =~= earlier);
                break;
            }
            let ghost before = self.cursor();
            proof {
                lemma_let_progress(tokens, before);
            }
            match self.parse_let_statement() {
                Err(e) => {
                    self.position = start;
                    return Err(e);
                },
                Ok(statement) => {
                    statements.push(statement);
                    proof {
                        let first = parse_let_at(tokens, before)->Ok_0.0;
                        assert(statement_views(statements@) =~= earlier.push(first));
                        match parse_program_at(tokens, self.cursor()) {
                            Ok(rest) => {
                                assert(earlier + (seq![first] + rest) =~= statement_views(
                                    statements@,
                                ) + rest);
                            },
                            Err(_) => {},
                        }
                    }
                },
            }
        }
        Ok(Program { statements })
    }

    fn parse_let_statement(&mut self) -> (r: Result<LetStatement, SyntaxError>)
        requires
            old(self).well_formed(),
        ensures
            final(self).well_formed(),
            final(self).tokens() == old(self).tokens(),
            match parse_let_at(old(self).tokens(), old(self).cursor()) {
                Ok((statement, next)) => {
                    &&& r matches Ok(s) && s@ == statement
                    &&& final(self).cursor() == next
                },
                Err(e) => r matches Err(x) && x@ == e,
            },
    {
        match self.expect(Token::Let) {
            Err(e) => {
                return Err(e);
            },
            Ok(_) => {},
        }
        let name = match self.peek() {
            Some(t) => match &t.token {
                Token::Identifier(n) => Some(Positioned::new(n.clone(), t.line, t.column)),
                _ => None,
            },
            None => None,
        };
        let name = match name {
            Some(name) => name,
            None => {
                return Err(SyntaxError::ExpectedIdentifier { found: self.found() });
            },
        };
        self.next();
        match self.expect(Token::Colon) {
            Err(e) => {
                return Err(e);
            },
            Ok(_) => {},
        }
        let declared_type = match self.peek() {
            Some(t) => match &t.token {
                Token::Type(n) => Some(Positioned::new(n.clone(), t.line, t.column)),
                _ => None,
            },
            None => None,
        };
        let declared_type = match declared_type {
            Some(declared_type) => declared_type,
            None => {
                return Err(SyntaxError::ExpectedType { found: self.found() });
            },
        };
        self.next();
        match self.expect(Token::Equal) {
            Err(e) => {
                return Err(e);
            },
            Ok(_) => {},
        }
        let (line, column) = match self.peek() {
            Some(t) => (t.line, t.column),
            None => (0, 0),
        };
        let value = match self.parse_expression() {
            Err(e) => {
                return Err(e);
            },
            Ok(value) => value,
        };
        let expression = Positioned::new(value, line, column);
        match self.expect(Token::Semicolon) {
            Err(e) => {
                return Err(e);
            },
            Ok(_) => {},
        }
        Ok(LetStatement { name, declared_type, expression })
    }

    /// Reads one expression and moves past it. On a syntax error the
    /// parser is left as it was.
    pub fn parse_expression(&mut self) -> (r: Result<Expr, SyntaxError>)
        requires
            old(self).well_formed(),
        ensures
            final(self).well_formed(),
            final(self).tokens() == old(self).tokens(),
            r is Ok ==> old(self).cursor() < final(self).cursor(),
            match parse_expression_at(old(self).tokens(), old(self).cursor()) {
                Ok((e, next)) => r matches Ok(x) && x@ == e && final(self).cursor() == next,
                Err(e) => r matches Err(x) && x@ == e && final(self).cursor() == old(self).cursor(),
            },
        decreases old(self).tokens().len() - old(self).cursor(), 5int,
    {
        let start = self.position;
        match self.parse_term() {
            Ok(expr) => Ok(expr),
            Err(e) => {
                self.position = start;
                Err(e)
            },
        }
    }

    fn parse_term(&mut self) -> (r: Result<Expr, SyntaxError>)
        requires
            old(self).well_formed(),
        ensures
            final(self).well_formed(),
            final(self).tokens() == old(self).tokens(),
            r is Ok ==> old(self).cursor() < final(self).cursor(),
            match parse_term_at(old(self).tokens(), old(self).cursor()) {
                Ok((e, next)) => r matches Ok(x) && x@ == e && final(self).cursor() == next,
                Err(e) => r matches Err(x) && x@ == e,
            },
        decreases old(self).tokens().len() - old(self).cursor(), 4int,
    {
        let ghost tokens = self.tokens();
        let ghost start = self.cursor();
        let mut left = match self.parse_factor() {
            Err(e) => {
                return Err(e);
            },
            Ok(left) => left,
        };
        loop
            invariant_except_break
                self.well_formed(),
                self.tokens() == tokens,
                tokens == old(self).tokens(),
                start == old(self).cursor(),
                start < self.cursor(),
                parse_term_at(tokens, start) == term_rest_at(tokens, self.cursor(), left@),
            ensures
                self.well_formed(),
                self.tokens() == tokens,
                start < self.cursor(),
                parse_term_at(tokens, start) == parsed(left@, self.cursor()),
            decreases tokens.len() - self.cursor(),
        {
            let op = match self.peek() {
                Some(t) => match &t.token {
                    Token::Plus => Some(BinaryOp::Add),
                    Token::Minus => Some(BinaryOp::Sub),
                    _ => None,
                },
                None => None,
            };
            let op = match op {
                Some(op) => op,
                None => {
                    break;
                },
            };
            self.next();
            let right = match self.parse_factor() {
                Err(e) => {
                    return Err(e);
                },
                Ok(right) => right,
            };
            left = Expr::Binary { left: Box::new(left), op, right: Box::new(right) };
        }
        Ok(left)
    }

    fn parse_factor(&mut self) -> (r: Result<Expr, SyntaxError>)
        requires
            old(self).well_formed(),
        ensures
            final(self).well_formed(),
            final(self).tokens() == old(self).tokens(),
            r is Ok ==> old(self).cursor() < final(self).cursor(),
            match parse_factor_at(old(self).tokens(), old(self).cursor()) {
                Ok((e, next)) => r matches Ok(x) && x@ == e && final(self).cursor() == next,
                Err(e) => r matches Err(x) && x@ == e,
            },
        decreases old(self).tokens().len() - old(self).cursor(), 2int,
    {
        let ghost tokens = self.tokens();
        let ghost start = self.cursor();
        let mut left = match self.parse_primary() {
            Err(e) => {
                return Err(e);
            },
            Ok(left) => left,
        };
        loop
            invariant_except_break
                self.well_formed(),
                self.tokens() == tokens,
                tokens == old(self).tokens(),
                start == old(self).cursor(),
                start < self.cursor(),
                parse_factor_at(tokens, start) == factor_rest_at(tokens, self.cursor(), left@),
            ensures
                self.well_formed(),
                self.tokens() == tokens,
                start < self.cursor(),
                parse_factor_at(tokens, start) == parsed(left@, self.cursor()),
            decreases tokens.len() - self.cursor(),
        {
            let op = match self.peek() {
                Some(t) => match &t.token {
                    Token::Star => Some(BinaryOp::Mul),
                    Token::Slash => Some(BinaryOp::Div),
                    _ => None,
                },
                None => None,
            };
            let op = match op {
                Some(op) => op,
                None => {
                    break;
                },
            };
            self.next();
            let right = match self.parse_primary() {
                Err(e) => {
                    return Err(e);
                },
                Ok(right) => right,
            };
            left = Expr::Binary { left: Box::new(left), op, right: Box::new(right) };
        }
        Ok(left)
    }

    fn parse_primary(&mut self) -> (r: Result<Expr, SyntaxError>)
        requires
            old(self).well_formed(),
        ensures
            final(self).well_formed(),
            final(self).tokens() == old(self).tokens(),
            r is Ok ==> old(self).cursor() < final(self).cursor(),
            match parse_primary_at(old(self).tokens(), old(self).cursor()) {
                Ok((e, next)) => r matches Ok(x) && x@ == e && final(self).cursor() == next,
                Err(e) => r matches Err(x) && x@ == e,
            },
        decreases old(self).tokens().len() - old(self).cursor(), 0int,
    {
        let leaf = match self.peek() {
            Some(t) => match &t.token {
                Token::LParen => None,
                Token::Number(n) => Some(Expr::Number(n.clone())),
                Token::String(s) => Some(Expr::String(s.clone())),
                Token::Identifier(name) => Some(Expr::Identifier(name.clone())),
                _ => {
                    return Err(SyntaxError::ExpectedExpression { found: self.found() });
                },
            },
            None => {
                return Err(SyntaxError::ExpectedExpression { found: self.found() });
            },
        };
        self.next();
        match leaf {
            Some(expr) => Ok(expr),
            None => {
                let expr = match self.parse_expression() {
                    Err(e) => {
                        return Err(e);
                    },
                    Ok(expr) => expr,
                };
                match self.expect(Token::RParen) {
                    Err(e) => Err(e),
                    Ok(_) => Ok(expr),
                }
            },
        }
    }
}

} // verus!
