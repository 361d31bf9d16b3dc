//! What is emitted reads back.
//!
//! The emitted text of an expression lexes to the tokens of its fully
//! parenthesised form, and these parse to the same expression
//! (`lemma_emitted_reads_back`). The emitted text of a program lexes to the
//! tokens of its statements, each without its type annotation
//! (`lemma_emitted_program_tokens`). Both hold of every program that was
//! read from a source text (`lemma_round_trip`).
//!
//! JavaScript has no type annotations, so the emitted text of a statement
//! is not a statement of the source language
//! (`lemma_emitted_program_lacks_annotations`): what reads back as source
//! is the expressions.

use crate::ast::{operator_symbol, BinaryOp, ExprView, LetStatementView};
use crate::decimal::{is_canonical, is_numeral, lemma_canonical_is_canonical, lemma_canonical_shape};
use crate::js_emitter::{emit_expr, emit_program, emit_statement};
use crate::lexer::{
    lemma_lexeme_progress, lexeme_at, next_token_at, punctuation, token_start, tokens_from, Lexeme,
    LexicalErrorView, SpannedTokenView, TokenView,
};
use crate::parser::{
    binary, expect_at, factor_operator, factor_rest_at, lemma_expression_progress,
    lemma_let_progress, parse_expression_at, parse_factor_at, parse_let_at, parse_primary_at,
    parse_program_at, parse_term_at, parsed, term_operator, term_rest_at, token_at,
    SyntaxErrorView,
};
use crate::pipeline::{parse_spec, tokenize_spec};
use crate::text::{
    digit, ident_char, ident_class, lemma_run_end, lemma_run_end_unique, letter, numeral_char,
    numeral_class, run_end, unquoted_class, whitespace, whitespace_class,
};
use vstd::prelude::*;

verus! {

/// The token that writes an operator.
pub open spec fn operator_token(op: BinaryOp) -> TokenView {
    match op {
        BinaryOp::Add => TokenView::Plus,
        BinaryOp::Sub => TokenView::Minus,
        BinaryOp::Mul => TokenView::Star,
        BinaryOp::Div => TokenView::Slash,
    }
}

/// The tokens of the fully parenthesised form of an expression.
pub open spec fn expr_tokens(e: ExprView) -> Seq<TokenView>
    decreases e,
{
    match e {
        ExprView::Number(n) => seq![TokenView::Number(n)],
        ExprView::String(s) => seq![TokenView::String(s)],
        ExprView::Identifier(name) => seq![TokenView::Identifier(name)],
        ExprView::Binary { left, op, right } => seq![TokenView::LParen] + expr_tokens(*left)
            + seq![operator_token(op)] + expr_tokens(*right) + seq![TokenView::RParen],
    }
}

/// The tokens of a sequence without their positions.
pub open spec fn kinds(tokens: Seq<SpannedTokenView>) -> Seq<TokenView> {
    Seq::new(tokens.len(), |i: int| tokens[i].token)
}

/// The tokens `expected` stand in `tokens` from index `pos` on.
pub open spec fn holds_at(
    tokens: Seq<SpannedTokenView>,
    pos: int,
    expected: Seq<TokenView>,
) -> bool {
    &&& 0 <= pos
    &&& pos + expected.len() <= tokens.len()
    &&& forall|i: int| 0 <= i < expected.len() ==> (#[trigger] tokens[pos + i]).token == expected[i]
}

/// Where a sequence stands, its two parts stand one after the other.
proof fn lemma_holds_at_parts(
    tokens: Seq<SpannedTokenView>,
    pos: int,
    first: Seq<TokenView>,
    second: Seq<TokenView>,
)
    requires
        holds_at(tokens, pos, first + second),
    ensures
        holds_at(tokens, pos, first),
        holds_at(tokens, pos + first.len(), second),
{
    let whole = first + second;
    assert forall|i: int| 0 <= i < first.len() implies (#[trigger] tokens[pos + i]).token
        == first[i] by {
        assert(whole[i] == first[i]);
    }
    assert forall|i: int| 0 <= i < second.len() implies (#[trigger] tokens[pos + first.len()
        + i]).token == second[i] by {
        assert(whole[first.len() + i] == second[i]);
        assert(tokens[pos + (first.len() + i)].token == whole[first.len() + i]);
    }
}

/// The fully parenthesised form of an expression parses, as a primary, to
/// that expression.
pub proof fn lemma_parse_parenthesised(tokens: Seq<SpannedTokenView>, pos: int, e: ExprView)
    requires
        holds_at(tokens, pos, expr_tokens(e)),
    ensures
        parse_primary_at(tokens, pos) == parsed(e, pos + expr_tokens(e).len()),
    decreases e,
{
    assert(tokens[pos + 0].token == expr_tokens(e)[0]);
    match e {
        ExprView::Binary { left, op, right } => {
            let l = expr_tokens(*left);
            let r = expr_tokens(*right);
            let open = seq![TokenView::LParen];
            let sign = seq![operator_token(op)];
            let close = seq![TokenView::RParen];
            assert(expr_tokens(e) == open + l + sign + r + close);
            lemma_holds_at_parts(tokens, pos, open + l + sign + r, close);
            lemma_holds_at_parts(tokens, pos, open + l + sign, r);
            lemma_holds_at_parts(tokens, pos, open + l, sign);
            lemma_holds_at_parts(tokens, pos, open, l);
            let sign_at = pos + 1 + l.len();
            let close_at = sign_at + 1 + r.len();
            lemma_parse_parenthesised(tokens, pos + 1, *left);
            lemma_parse_parenthesised(tokens, sign_at + 1, *right);
            assert(tokens[sign_at + 0].token == sign[0]);
            assert(tokens[close_at + 0].token == close[0]);
            assert(token_at(tokens, sign_at).token == operator_token(op));
            assert(token_at(tokens, close_at).token == TokenView::RParen);
            let whole = binary(*left, op, *right);
            assert(whole == e);
            assert(factor_rest_at(tokens, close_at, whole) == parsed(whole, close_at));
            assert(term_rest_at(tokens, close_at, whole) == parsed(whole, close_at));
            if op == BinaryOp::Mul || op == BinaryOp::Div {
                assert(factor_rest_at(tokens, sign_at, *left) == parsed(whole, close_at));
                assert(parse_factor_at(tokens, pos + 1) == parsed(whole, close_at));
            } else {
                assert(factor_rest_at(tokens, sign_at, *left) == parsed(*left, sign_at));
                assert(parse_factor_at(tokens, pos + 1) == parsed(*left, sign_at));
                assert(factor_rest_at(tokens, close_at, *right) == parsed(*right, close_at));
                assert(parse_factor_at(tokens, sign_at + 1) == parsed(*right, close_at));
                assert(term_rest_at(tokens, sign_at, *left) == parsed(whole, close_at));
            }
            assert(parse_term_at(tokens, pos + 1) == parsed(whole, close_at));
            assert(expr_tokens(e).len() == close_at + 1 - pos);
        },
        _ => {},
    }
}

/// A token sequence that is the fully parenthesised form of an expression,
/// and nothing more, parses to that expression.
pub proof fn lemma_parse_emitted(tokens: Seq<SpannedTokenView>, e: ExprView)
    requires
        kinds(tokens) == expr_tokens(e),
    ensures
        parse_expression_at(tokens, 0) == parsed(e, tokens.len() as int),
{
    assert(kinds(tokens).len() == tokens.len());
    assert forall|i: int| 0 <= i < expr_tokens(e).len() implies (#[trigger] tokens[0 + i]).token
        == expr_tokens(e)[i] by {
        assert(kinds(tokens)[i] == tokens[i].token);
    }
    lemma_parse_parenthesised(tokens, 0, e);
    let n = tokens.len() as int;
    assert(factor_rest_at(tokens, n, e) == parsed(e, n));
    assert(term_rest_at(tokens, n, e) == parsed(e, n));
}

/// A name that the lexer reads as an identifier: a letter, then letters,
/// digits and underscores, and not one of the reserved words.
pub open spec fn is_identifier(name: Seq<char>) -> bool {
    &&& name.len() > 0
    &&& letter(name[0])
    &&& forall|i: int| 0 <= i < name.len() ==> ident_char(#[trigger] name[i])
    &&& name != "let"@
    &&& name != "number"@
    &&& name != "string"@
}

/// What can stand between the quotes of a string literal: anything but a
/// quote.
pub open spec fn is_string_body(body: Seq<char>) -> bool {
    forall|i: int| 0 <= i < body.len() ==> #[trigger] body[i] != '"'
}

/// A token as the lexer produces it.
pub open spec fn lexical_token(t: TokenView) -> bool {
    match t {
        TokenView::Number(n) => is_canonical(n),
        TokenView::String(body) => is_string_body(body),
        TokenView::Identifier(name) => is_identifier(name),
        TokenView::Type(name) => name == "number"@ || name == "string"@,
        _ => true,
    }
}

/// An expression whose leaves are as the lexer produces them.
pub open spec fn lexical(e: ExprView) -> bool
    decreases e,
{
    match e {
        ExprView::Number(n) => is_canonical(n),
        ExprView::String(body) => is_string_body(body),
        ExprView::Identifier(name) => is_identifier(name),
        ExprView::Binary { left, op, right } => lexical(*left) && lexical(*right),
    }
}

/// The text `t` stands in `s` from offset `pos` on.
pub open spec fn text_at(s: Seq<char>, pos: int, t: Seq<char>) -> bool {
    &&& 0 <= pos
    &&& pos + t.len() <= s.len()
    &&& forall|i: int| 0 <= i < t.len() ==> #[trigger] s[pos + i] == t[i]
}

/// No word and no number can run on over offset `at`.
pub open spec fn delimited(s: Seq<char>, at: int) -> bool {
    0 <= at < s.len() ==> !ident_char(s[at]) && !numeral_char(s[at])
}

/// Reads the tokens `expected`, one after the other, from offset `pos`
/// on: the offset after the last of them, if they are what stands there.
pub open spec fn reads(s: Seq<char>, pos: int, expected: Seq<TokenView>) -> Option<int>
    decreases expected.len(),
{
    if expected.len() == 0 {
        Some(pos)
    } else {
        let lexeme = lexeme_at(s, token_start(s, pos));
        if lexeme.token == lexed(expected[0]) && !(expected[0] is EOF) {
            reads(s, lexeme.end, expected.skip(1))
        } else {
            None
        }
    }
}

/// The outcome of reading the token `t`.
pub open spec fn lexed(t: TokenView) -> Result<TokenView, LexicalErrorView> {
    Ok(t)
}

/// Where a text stands, its two parts stand one after the other.
proof fn lemma_text_at_parts(s: Seq<char>, pos: int, first: Seq<char>, second: Seq<char>)
    requires
        text_at(s, pos, first + second),
    ensures
        text_at(s, pos, first),
        text_at(s, pos + first.len(), second),
{
    let whole = first + second;
    assert forall|i: int| 0 <= i < first.len() implies #[trigger] s[pos + i] == first[i] by {
        assert(whole[i] == first[i]);
    }
    assert forall|i: int| 0 <= i < second.len() implies #[trigger] s[pos + first.len() + i]
        == second[i] by {
        assert(whole[first.len() + i] == second[i]);
        assert(s[pos + (first.len() + i)] == whole[first.len() + i]);
    }
}

/// Reading a single token is reading the lexeme that stands there.
proof fn lemma_reads_one(s: Seq<char>, pos: int, t: TokenView)
    requires
        lexeme_at(s, token_start(s, pos)).token == lexed(t),
        !(t is EOF),
    ensures
        reads(s, pos, seq![t]) == Some(lexeme_at(s, token_start(s, pos)).end),
{
    let end = lexeme_at(s, token_start(s, pos)).end;
    assert(seq![t].skip(1).len() == 0);
    assert(reads(s, end, seq![t].skip(1)) == Some(end));
}

/// Reading one sequence of tokens and then another is reading the two in
/// a row.
proof fn lemma_reads_append(
    s: Seq<char>,
    pos: int,
    first: Seq<TokenView>,
    second: Seq<TokenView>,
)
    requires
        reads(s, pos, first) is Some,
    ensures
        reads(s, pos, first + second) == reads(s, reads(s, pos, first)->0, second),
    decreases first.len(),
{
    if first.len() == 0 {
        assert(first + second =~= second);
    } else {
        let lexeme = lexeme_at(s, token_start(s, pos));
        assert((first + second)[0] == first[0]);
        assert((first + second).skip(1) =~= first.skip(1) + second);
        lemma_reads_append(s, lexeme.end, first.skip(1), second);
    }
}

/// Where a token starts when at most blanks stand before it.
proof fn lemma_token_start(s: Seq<char>, from: int, pos: int)
    requires
        0 <= from <= pos < s.len(),
        forall|i: int| from <= i < pos ==> whitespace(#[trigger] s[i]),
        !whitespace(s[pos]),
    ensures
        token_start(s, from) == pos,
{
    lemma_run_end_unique(s, from, whitespace_class(), pos);
}

/// A canonical numeral that nothing runs on from lexes to its number.
proof fn lemma_read_number(s: Seq<char>, pos: int, n: Seq<char>)
    requires
        is_canonical(n),
        text_at(s, pos, n),
        delimited(s, pos + n.len()),
    ensures
        lexeme_at(s, pos) == (Lexeme {
            token: lexed(TokenView::Number(n)),
            end: pos + n.len(),
        }),
        !whitespace(s[pos]),
{
    lemma_canonical_shape(n);
    let end = pos + n.len();
    assert(s[pos + 0] == n[0]);
    assert forall|i: int| pos <= i < end implies numeral_class()(#[trigger] s[i]) by {
        assert(s[pos + (i - pos)] == n[i - pos]);
    }
    lemma_run_end_unique(s, pos, numeral_class(), end);
    assert(s.subrange(pos, end) =~= n) by {
        assert forall|i: int| 0 <= i < n.len() implies s.subrange(pos, end)[i] == n[i] by {
            assert(s[pos + i] == n[i]);
        }
    }
}

/// An identifier that nothing runs on from lexes to itself.
proof fn lemma_read_identifier(s: Seq<char>, pos: int, name: Seq<char>)
    requires
        is_identifier(name),
        text_at(s, pos, name),
        delimited(s, pos + name.len()),
    ensures
        lexeme_at(s, pos) == (Lexeme {
            token: lexed(TokenView::Identifier(name)),
            end: pos + name.len(),
        }),
        !whitespace(s[pos]),
{
    let end = pos + name.len();
    assert(s[pos + 0] == name[0]);
    assert forall|i: int| pos <= i < end implies ident_class()(#[trigger] s[i]) by {
        assert(s[pos + (i - pos)] == name[i - pos]);
    }
    lemma_run_end_unique(s, pos, ident_class(), end);
    assert(s.subrange(pos, end) =~= name) by {
        assert forall|i: int| 0 <= i < name.len() implies s.subrange(pos, end)[i] == name[i] by {
            assert(s[pos + i] == name[i]);
        }
    }
}

/// A string body between quotes lexes to a string token, whatever comes
/// after the closing quote.
proof fn lemma_read_string(s: Seq<char>, pos: int, body: Seq<char>)
    requires
        is_string_body(body),
        text_at(s, pos, "\""@ + body + "\""@),
    ensures
        lexeme_at(s, pos) == (Lexeme {
            token: lexed(TokenView::String(body)),
            end: pos + body.len() + 2,
        }),
        !whitespace(s[pos]),
        ("\""@ + body + "\""@).len() == body.len() + 2,
{
    reveal_strlit("\"");
    let quote = "\""@;
    lemma_text_at_parts(s, pos, quote + body, quote);
    lemma_text_at_parts(s, pos, quote, body);
    assert(s[pos + 0] == quote[0]);
    let close = pos + 1 + body.len();
    assert(s[close + 0] == quote[0]);
    assert forall|i: int| pos + 1 <= i < close implies unquoted_class()(#[trigger] s[i]) by {
        assert(s[pos + 1 + (i - pos - 1)] == body[i - pos - 1]);
    }
    lemma_run_end_unique(s, pos + 1, unquoted_class(), close);
    assert(s.subrange(pos + 1, close) =~= body) by {
        assert forall|i: int| 0 <= i < body.len() implies s.subrange(pos + 1, close)[i]
            == body[i] by {
            assert(s[pos + 1 + i] == body[i]);
        }
    }
}

/// The text of an operator is one character, which lexes to the
/// operator's token.
proof fn lemma_operator_symbol(op: BinaryOp)
    ensures
        operator_symbol(op).len() == 1,
        punctuation(operator_symbol(op)[0]) == Some(operator_token(op)),
        !whitespace(operator_symbol(op)[0]),
        !letter(operator_symbol(op)[0]),
        !digit(operator_symbol(op)[0]),
        operator_symbol(op)[0] != '"',
{
    reveal_strlit("+");
    reveal_strlit("-");
    reveal_strlit("*");
    reveal_strlit("/");
}

/// The text of a lexical expression is not empty and starts with a
/// character that is no blank.
proof fn lemma_emitted_start(e: ExprView)
    requires
        lexical(e),
    ensures
        emit_expr(e).len() > 0,
        !whitespace(emit_expr(e)[0]),
{
    reveal_strlit("\"");
    reveal_strlit("(");
    match e {
        ExprView::Number(n) => {
            lemma_canonical_shape(n);
        },
        ExprView::String(body) => {
            assert(emit_expr(e)[0] == "\""@[0]);
        },
        ExprView::Identifier(name) => {},
        ExprView::Binary { left, op, right } => {
            assert(emit_expr(e)[0] == "("@[0]);
        },
    }
}

/// The text of a lexical expression lexes to the tokens of its fully
/// parenthesised form, wherever it stands, if blanks at most stand before
/// it and no word or number runs on after it.
pub proof fn lemma_reads_expression(s: Seq<char>, from: int, pos: int, e: ExprView)
    requires
        lexical(e),
        0 <= from <= pos,
        forall|i: int| from <= i < pos ==> whitespace(#[trigger] s[i]),
        text_at(s, pos, emit_expr(e)),
        delimited(s, pos + emit_expr(e).len()),
    ensures
        reads(s, from, expr_tokens(e)) == Some(pos + emit_expr(e).len()),
    decreases e,
{
    lemma_emitted_start(e);
    assert(s[pos + 0] == emit_expr(e)[0]);
    lemma_token_start(s, from, pos);
    match e {
        ExprView::Number(n) => {
            lemma_read_number(s, pos, n);
            lemma_reads_one(s, from, TokenView::Number(n));
        },
        ExprView::String(body) => {
            lemma_read_string(s, pos, body);
            lemma_reads_one(s, from, TokenView::String(body));
        },
        ExprView::Identifier(name) => {
            lemma_read_identifier(s, pos, name);
            lemma_reads_one(s, from, TokenView::Identifier(name));
        },
        ExprView::Binary { left, op, right } => {
            reveal_strlit("(");
            reveal_strlit(" ");
            reveal_strlit(")");
            lemma_operator_symbol(op);
            let tl = emit_expr(*left);
            let tr = emit_expr(*right);
            let sym = operator_symbol(op);
            assert(emit_expr(e) == "("@ + tl + " "@ + sym + " "@ + tr + ")"@);
            lemma_text_at_parts(s, pos, "("@ + tl + " "@ + sym + " "@ + tr, ")"@);
            lemma_text_at_parts(s, pos, "("@ + tl + " "@ + sym + " "@, tr);
            lemma_text_at_parts(s, pos, "("@ + tl + " "@ + sym, " "@);
            lemma_text_at_parts(s, pos, "("@ + tl + " "@, sym);
            lemma_text_at_parts(s, pos, "("@ + tl, " "@);
            lemma_text_at_parts(s, pos, "("@, tl);
            let a1 = pos + 1;
            let a2 = a1 + tl.len();
            let a3 = a2 + 1;
            let a4 = a3 + 1;
            let a5 = a4 + 1;
            let a6 = a5 + tr.len();
            let a7 = a6 + 1;
            assert(s[pos + 0] == '(');
            assert(s[a2 + 0] == ' ');
            assert(s[a3 + 0] == sym[0]);
            assert(s[a4 + 0] == ' ');
            assert(s[a6 + 0] == ')');
            // the opening parenthesis
            lemma_reads_one(s, from, TokenView::LParen);
            // the left operand
            lemma_reads_expression(s, a1, a1, *left);
            // the operator
            lemma_token_start(s, a2, a3);
            lemma_reads_one(s, a2, operator_token(op));
            // the right operand
            lemma_reads_expression(s, a4, a5, *right);
            // the closing parenthesis
            lemma_token_start(s, a6, a6);
            lemma_reads_one(s, a6, TokenView::RParen);
            let k_open = seq![TokenView::LParen];
            let k_left = expr_tokens(*left);
            let k_sign = seq![operator_token(op)];
            let k_right = expr_tokens(*right);
            let k_close = seq![TokenView::RParen];
            lemma_reads_append(s, from, k_open, k_left);
            lemma_reads_append(s, from, k_open + k_left, k_sign);
            lemma_reads_append(s, from, k_open + k_left + k_sign, k_right);
            lemma_reads_append(s, from, k_open + k_left + k_sign + k_right, k_close);
            assert(emit_expr(e).len() == a7 - pos);
        },
    }
}

/// Tokens that are read up to the end of the text, or up to blanks that
/// run to its end, are all its tokens.
proof fn lemma_reads_all(s: Seq<char>, pos: int, expected: Seq<TokenView>)
    requires
        0 <= pos <= s.len(),
        reads(s, pos, expected) is Some,
        token_start(s, reads(s, pos, expected)->0) == s.len(),
    ensures
        tokens_from(s, pos) matches Ok(tokens) && kinds(tokens) == expected,
    decreases expected.len(),
{
    lemma_lexeme_progress(s, pos);
    if expected.len() == 0 {
        assert(kinds(Seq::<SpannedTokenView>::empty()) =~= expected);
    } else {
        let lexeme = lexeme_at(s, token_start(s, pos));
        lemma_reads_all(s, lexeme.end, expected.skip(1));
        let first = next_token_at(s, pos)->Ok_0;
        let rest = tokens_from(s, lexeme.end)->Ok_0;
        assert(kinds(seq![first] + rest) =~= expected) by {
            assert forall|i: int| 0 <= i < expected.len() implies kinds(seq![first] + rest)[i]
                == expected[i] by {
                if i > 0 {
                    assert(kinds(rest)[i - 1] == expected.skip(1)[i - 1]);
                }
            }
        }
    }
}

/// The emitted text of `e` has a token stream, and its tokens parse, all
/// of them, to `e`.
pub open spec fn reads_back(e: ExprView) -> bool {
    tokens_from(emit_expr(e), 0) matches Ok(tokens) && parse_expression_at(tokens, 0) == parsed(
        e,
        tokens.len() as int,
    )
}

/// An expression whose leaves are as the lexer produces them reads back
/// from its own text: the text has a token stream, and the tokens parse,
/// all of them, to the expression itself.
pub proof fn lemma_emitted_reads_back(e: ExprView)
    requires
        lexical(e),
    ensures
        reads_back(e),
{
    let s = emit_expr(e);
    lemma_emitted_start(e);
    lemma_reads_expression(s, 0, 0, e);
    lemma_run_end(s, s.len() as int, whitespace_class());
    lemma_reads_all(s, 0, expr_tokens(e));
    lemma_parse_emitted(tokens_from(s, 0)->Ok_0, e);
}

/// A token sequence as the lexer produces it.
pub open spec fn all_lexical(tokens: Seq<SpannedTokenView>) -> bool {
    forall|i: int| 0 <= i < tokens.len() ==> lexical_token((#[trigger] tokens[i]).token)
}

/// Whatever the lexer reads at one place is a lexical token.
pub proof fn lemma_lexeme_lexical(s: Seq<char>, start: int)
    ensures
        lexeme_at(s, start).token matches Ok(t) ==> lexical_token(t),
{
    if 0 <= start < s.len() {
        if letter(s[start]) {
            lemma_run_end(s, start + 1, ident_class());
            lemma_run_end(s, start, ident_class());
            let end = run_end(s, start, ident_class());
            let word = s.subrange(start, end);
            assert(word[0] == s[start]);
            assert forall|i: int| 0 <= i < word.len() implies ident_char(#[trigger] word[i]) by {
                assert(ident_class()(s[start + i]));
            }
        } else if digit(s[start]) {
            let run = s.subrange(start, run_end(s, start, numeral_class()));
            if is_numeral(run) {
                lemma_canonical_is_canonical(run);
            }
        } else if s[start] == '"' {
            lemma_run_end(s, start + 1, unquoted_class());
            let close = run_end(s, start + 1, unquoted_class());
            let body = s.subrange(start + 1, close);
            assert forall|i: int| 0 <= i < body.len() implies #[trigger] body[i] != '"' by {
                assert(unquoted_class()(s[start + 1 + i]));
            }
        }
    }
}

/// The tokens of a text are lexical tokens.
pub proof fn lemma_tokens_lexical(s: Seq<char>, pos: int)
    ensures
        tokens_from(s, pos) matches Ok(tokens) ==> all_lexical(tokens),
    decreases s.len() - pos,
{
    if 0 <= pos <= s.len() {
        if let Ok(first) = next_token_at(s, pos) {
            if !(first.token is EOF) {
                let lexeme = lexeme_at(s, token_start(s, pos));
                lemma_lexeme_progress(s, pos);
                lemma_lexeme_lexical(s, token_start(s, pos));
                lemma_tokens_lexical(s, lexeme.end);
                if let Ok(rest) = tokens_from(s, lexeme.end) {
                    let tokens = seq![first] + rest;
                    assert forall|i: int| 0 <= i < tokens.len() implies lexical_token(
                        (#[trigger] tokens[i]).token,
                    ) by {
                        if i > 0 {
                            assert(tokens[i] == rest[i - 1]);
                        }
                    }
                }
            }
        }
    }
}

/// An expression that is read from lexical tokens is lexical.
pub proof fn lemma_parse_lexical(tokens: Seq<SpannedTokenView>, pos: int)
    requires
        all_lexical(tokens),
        0 <= pos,
    ensures
        parse_primary_at(tokens, pos) matches Ok((e, _)) ==> lexical(e),
        parse_factor_at(tokens, pos) matches Ok((e, _)) ==> lexical(e),
        parse_term_at(tokens, pos) matches Ok((e, _)) ==> lexical(e),
    decreases tokens.len() - pos, 4int,
{
    if pos < tokens.len() {
        lemma_expression_progress(tokens, pos);
        assert(lexical_token(tokens[pos].token));
        if token_at(tokens, pos).token is LParen {
            lemma_parse_lexical(tokens, pos + 1);
        }
        if let Ok((left, next)) = parse_primary_at(tokens, pos) {
            lemma_rest_lexical(tokens, next, left);
        }
        if let Ok((left, next)) = parse_factor_at(tokens, pos) {
            lemma_rest_lexical(tokens, next, left);
        }
    }
}

/// Operands that are read from lexical tokens keep an expression lexical.
proof fn lemma_rest_lexical(tokens: Seq<SpannedTokenView>, pos: int, left: ExprView)
    requires
        all_lexical(tokens),
        lexical(left),
        0 <= pos <= tokens.len(),
    ensures
        factor_rest_at(tokens, pos, left) matches Ok((e, _)) ==> lexical(e),
        term_rest_at(tokens, pos, left) matches Ok((e, _)) ==> lexical(e),
    decreases tokens.len() - pos, 3int,
{
    if pos < tokens.len() {
        lemma_expression_progress(tokens, pos + 1);
        lemma_parse_lexical(tokens, pos + 1);
        if let Some(op) = factor_operator(token_at(tokens, pos).token) {
            if let Ok((right, next)) = parse_primary_at(tokens, pos + 1) {
                lemma_rest_lexical(tokens, next, binary(left, op, right));
            }
        }
        if let Some(op) = term_operator(token_at(tokens, pos).token) {
            if let Ok((right, next)) = parse_factor_at(tokens, pos + 1) {
                lemma_rest_lexical(tokens, next, binary(left, op, right));
            }
        }
    }
}

/// A statement whose name is an identifier and whose expression is
/// lexical.
pub open spec fn lexical_statement(statement: LetStatementView) -> bool {
    is_identifier(statement.name.value) && lexical(statement.expression.value)
}

/// A program whose statements are all lexical.
pub open spec fn lexical_program(program: Seq<LetStatementView>) -> bool {
    forall|i: int| 0 <= i < program.len() ==> lexical_statement(#[trigger] program[i])
}

/// The tokens of an emitted statement: `let`, the name, `=`, the fully
/// parenthesised expression, `;`.
pub open spec fn statement_tokens(statement: LetStatementView) -> Seq<TokenView> {
    seq![TokenView::Let, TokenView::Identifier(statement.name.value), TokenView::Equal]
        + expr_tokens(statement.expression.value) + seq![TokenView::Semicolon]
}

/// The tokens of an emitted program: those of its statements, in order.
pub open spec fn program_tokens(program: Seq<LetStatementView>) -> Seq<TokenView>
    decreases program.len(),
{
    if program.len() == 0 {
        Seq::empty()
    } else {
        program_tokens(program.drop_last()) + statement_tokens(program.last())
    }
}

/// The text of a lexical statement lexes to the tokens of the statement,
/// wherever it stands, if blanks at most stand before it.
proof fn lemma_reads_statement(s: Seq<char>, from: int, pos: int, statement: LetStatementView)
    requires
        lexical_statement(statement),
        0 <= from <= pos,
        forall|i: int| from <= i < pos ==> whitespace(#[trigger] s[i]),
        text_at(s, pos, emit_statement(statement)),
    ensures
        reads(s, from, statement_tokens(statement)) == Some(
            pos + emit_statement(statement).len(),
        ),
{
    reveal_strlit("let ");
    reveal_strlit("let");
    reveal_strlit(" = ");
    reveal_strlit(";");
    let name = statement.name.value;
    let e = statement.expression.value;
    let text = emit_expr(e);
    assert(emit_statement(statement) == "let "@ + name + " = "@ + text + ";"@);
    lemma_text_at_parts(s, pos, "let "@ + name + " = "@ + text, ";"@);
    lemma_text_at_parts(s, pos, "let "@ + name + " = "@, text);
    lemma_text_at_parts(s, pos, "let "@ + name, " = "@);
    lemma_text_at_parts(s, pos, "let "@, name);
    let b1 = pos + 4;
    let b2 = b1 + name.len();
    let b3 = b2 + 3;
    let b4 = b3 + text.len();
    assert(s[pos + 0] == 'l' && s[pos + 1] == 'e' && s[pos + 2] == 't' && s[pos + 3] == ' ');
    assert(s[b2 + 0] == ' ' && s[b2 + 1] == '=' && s[b2 + 2] == ' ');
    assert(s[b4 + 0] == ';');
    // the keyword
    lemma_token_start(s, from, pos);
    lemma_run_end_unique(s, pos, ident_class(), pos + 3);
    assert(s.subrange(pos, pos + 3) =~= "let"@);
    lemma_reads_one(s, from, TokenView::Let);
    // the name
    assert(s[b1 + 0] == name[0]);
    lemma_token_start(s, pos + 3, b1);
    lemma_read_identifier(s, b1, name);
    lemma_reads_one(s, pos + 3, TokenView::Identifier(name));
    // the equal sign
    lemma_token_start(s, b2, b2 + 1);
    lemma_reads_one(s, b2, TokenView::Equal);
    // the expression
    lemma_reads_expression(s, b2 + 2, b3, e);
    // the semicolon
    lemma_token_start(s, b4, b4);
    lemma_reads_one(s, b4, TokenView::Semicolon);
    let k_let = seq![TokenView::Let];
    let k_name = seq![TokenView::Identifier(name)];
    let k_equal = seq![TokenView::Equal];
    let k_value = expr_tokens(e);
    let k_end = seq![TokenView::Semicolon];
    lemma_reads_append(s, from, k_let, k_name);
    lemma_reads_append(s, from, k_let + k_name, k_equal);
    lemma_reads_append(s, from, k_let + k_name + k_equal, k_value);
    lemma_reads_append(s, from, k_let + k_name + k_equal + k_value, k_end);
    assert(k_let + k_name + k_equal =~= seq![
        TokenView::Let,
        TokenView::Identifier(name),
        TokenView::Equal,
    ]);
}

/// The text of a lexical program lexes to the tokens of its statements,
/// wherever it stands; after the last token blanks at most are left of
/// it.
proof fn lemma_reads_program(s: Seq<char>, pos: int, program: Seq<LetStatementView>)
    requires
        lexical_program(program),
        text_at(s, pos, emit_program(program)),
    ensures
        reads(s, pos, program_tokens(program)) matches Some(end) && pos <= end <= pos
            + emit_program(program).len() && forall|i: int|
            end <= i < pos + emit_program(program).len() ==> whitespace(#[trigger] s[i]),
    decreases program.len(),
{
    if program.len() > 0 {
        reveal_strlit("\n");
        let before = program.drop_last();
        let last = program.last();
        assert(lexical_program(before)) by {
            assert forall|i: int| 0 <= i < before.len() implies lexical_statement(
                #[trigger] before[i],
            ) by {
                assert(before[i] == program[i]);
            }
        }
        lemma_text_at_parts(s, pos, emit_program(before) + emit_statement(last), "\n"@);
        lemma_text_at_parts(s, pos, emit_program(before), emit_statement(last));
        lemma_reads_program(s, pos, before);
        let resume = reads(s, pos, program_tokens(before))->0;
        let start = pos + emit_program(before).len();
        lemma_reads_statement(s, resume, start, last);
        lemma_reads_append(s, pos, program_tokens(before), statement_tokens(last));
        let end = start + emit_statement(last).len();
        assert(s[end + 0] == '\n');
    }
}

/// The emitted text of a lexical program has a token stream: statement by
/// statement `let`, the name, `=`, the tokens of the fully parenthesised
/// expression, and `;`.
pub proof fn lemma_emitted_program_tokens(program: Seq<LetStatementView>)
    requires
        lexical_program(program),
    ensures
        tokenize_spec(emit_program(program)) matches Ok(tokens) && kinds(tokens) == program_tokens(
            program,
        ),
{
    let s = emit_program(program);
    lemma_reads_program(s, 0, program);
    let end = reads(s, 0, program_tokens(program))->0;
    lemma_run_end_unique(s, end, whitespace_class(), s.len() as int);
    lemma_reads_all(s, 0, program_tokens(program));
}

/// A program that is read from lexical tokens is lexical.
pub proof fn lemma_parsed_program_lexical(tokens: Seq<SpannedTokenView>, pos: int)
    requires
        all_lexical(tokens),
    ensures
        parse_program_at(tokens, pos) matches Ok(program) ==> lexical_program(program),
    decreases tokens.len() - pos,
{
    if pos >= 0 && !(token_at(tokens, pos).token is EOF) {
        if let Ok((first, next)) = parse_let_at(tokens, pos) {
            lemma_let_progress(tokens, pos);
            let name_pos = expect_at(tokens, pos, TokenView::Let)->Ok_0;
            let type_pos = expect_at(tokens, name_pos + 1, TokenView::Colon)->Ok_0;
            let value_pos = expect_at(tokens, type_pos + 1, TokenView::Equal)->Ok_0;
            assert(lexical_token(tokens[name_pos].token));
            lemma_parse_lexical(tokens, value_pos);
            lemma_parsed_program_lexical(tokens, next);
            if let Ok(rest) = parse_program_at(tokens, next) {
                let program = seq![first] + rest;
                assert forall|i: int| 0 <= i < program.len() implies lexical_statement(
                    #[trigger] program[i],
                ) by {
                    if i > 0 {
                        assert(program[i] == rest[i - 1]);
                    }
                }
            }
        }
    }
}

/// What is emitted for a program that was read from a source text reads
/// back. The whole output has a token stream, which holds for each
/// statement, in order, `let`, its name, `=`, its expression fully
/// parenthesised, and `;`. And the emitted text of each expression parses,
/// all of it, to the expression itself.
pub proof fn lemma_round_trip(source: Seq<char>)
    requires
        tokenize_spec(source) matches Ok(tokens) && parse_spec(tokens) is Ok,
    ensures
        ({
            let program = parse_spec(tokenize_spec(source)->Ok_0)->Ok_0;
            &&& tokenize_spec(emit_program(program)) matches Ok(tokens) && kinds(tokens)
                == program_tokens(program)
            &&& forall|i: int|
                0 <= i < program.len() ==> reads_back(#[trigger] program[i].expression.value)
        }),
{
    let tokens = tokenize_spec(source)->Ok_0;
    let program = parse_spec(tokens)->Ok_0;
    lemma_tokens_lexical(source, 0);
    lemma_parsed_program_lexical(tokens, 0);
    lemma_emitted_program_tokens(program);
    assert forall|i: int| 0 <= i < program.len() implies reads_back(
        #[trigger] program[i].expression.value,
    ) by {
        assert(lexical_statement(program[i]));
        lemma_emitted_reads_back(program[i].expression.value);
    }
}

/// The first tokens of an emitted program are those of its first
/// statement.
proof fn lemma_program_tokens_start(program: Seq<LetStatementView>)
    requires
        program.len() > 0,
    ensures
        program_tokens(program).len() >= 3,
        program_tokens(program)[0] == TokenView::Let,
        program_tokens(program)[1] == TokenView::Identifier(program[0].name.value),
        program_tokens(program)[2] == TokenView::Equal,
    decreases program.len(),
{
    let before = program.drop_last();
    if before.len() > 0 {
        lemma_program_tokens_start(before);
        assert(before[0] == program[0]);
    } else {
        assert(program_tokens(before).len() == 0);
        assert(program.last() == program[0]);
    }
}

/// The output language is not the source language: an emitted statement
/// carries no type annotation. So the emitted text of a program with at
/// least one statement does not parse as a program; the parser asks for
/// the colon where the equal sign stands.
pub proof fn lemma_emitted_program_lacks_annotations(program: Seq<LetStatementView>)
    requires
        lexical_program(program),
        program.len() > 0,
    ensures
        tokenize_spec(emit_program(program)) matches Ok(tokens) && parse_spec(tokens) == Err::<
            Seq<LetStatementView>,
            SyntaxErrorView,
        >(SyntaxErrorView::UnexpectedToken { expected: TokenView::Colon, found: tokens[2] }),
{
    lemma_emitted_program_tokens(program);
    lemma_program_tokens_start(program);
    let tokens = tokenize_spec(emit_program(program))->Ok_0;
    assert(kinds(tokens).len() == tokens.len());
    assert(kinds(tokens)[0] == tokens[0].token);
    assert(kinds(tokens)[1] == tokens[1].token);
    assert(kinds(tokens)[2] == tokens[2].token);
}

} // verus!
