//! Emission: a program rendered as JavaScript source, one line for each
//! statement.
//!
//! The emitter does not check types again; it renders whatever program it
//! is given.

use crate::ast::{operator_symbol, Expr, ExprView, LetStatement, LetStatementView, Program};
use vstd::prelude::*;

verus! {

/// The text of an expression: a number in canonical notation, a string
/// between double quotes with nothing escaped, a name as it is, and every
/// binary operation between parentheses, whatever stands around it.
pub open spec fn emit_expr(e: ExprView) -> Seq<char>
    decreases e,
{
    match e {
        ExprView::Number(n) => n,
        ExprView::String(s) => "\""@ + s + "\""@,
        ExprView::Identifier(name) => name,
        ExprView::Binary { left, op, right } => "("@ + emit_expr(*left) + " "@ + operator_symbol(
            op,
        ) + " "@ + emit_expr(*right) + ")"@,
    }
}

/// The text of a statement, without the line break after it.
pub open spec fn emit_statement(statement: LetStatementView) -> Seq<char> {
    "let "@ + statement.name.value + " = "@ + emit_expr(statement.expression.value) + ";"@
}

/// The text of a program: each statement in order, each followed by a
/// line break.
pub open spec fn emit_program(statements: Seq<LetStatementView>) -> Seq<char>
    decreases statements.len(),
{
    if statements.len() == 0 {
        Seq::empty()
    } else {
        emit_program(statements.drop_last()) + emit_statement(statements.last()) + "\n"@
    }
}

pub struct JsEmitter;

impl JsEmitter {
    pub fn new() -> Self {
        JsEmitter
    }

    pub fn generate(&self, program: &Program) -> (output: String)
        ensures
            output@ == emit_program(program@),
    {
        let mut output = String::new();
        let n = program.statements.len();
        let mut i: usize = 0;
        while i < n
            invariant
                n == program.statements.len(),
                0 <= i <= n,
                output@ == emit_program(program@.take(i as int)),
            decreases n - i,
        {
            let line = self.generate_statement(&program.statements[i]);
            output.append(line.as_str());
            output.push('\n');
            proof {
                reveal_strlit("\n");
                assert(program@.take(i + 1).drop_last() =~= program@.take(i as int));
                assert(program@.take(i + 1).last() == program.statements[i as int]@);
                assert(output@ =~= emit_program(program@.take(i as int)) + emit_statement(
                    program.statements[i as int]@,
                ) + "\n"@);
            }
            i += 1;
        }
        assert(program@.take(n as int) =~= program@);
        output
    }

    pub fn generate_statement(&self, stmt: &LetStatement) -> (line: String)
        ensures
            line@ == emit_statement(stmt@),
    {
        let expr_code = Self::generate_expr(&stmt.expression.value);
        let mut line = "let ".to_owned();
        line.append(stmt.name.value.as_str());
        line.append(" = ");
        line.append(expr_code.as_str());
        line.append(";");
        line
    }

    pub fn generate_expr(expr: &Expr) -> (code: String)
        ensures
            code@ == emit_expr(expr@),
        decreases expr,
    {
        match expr {
            Expr::Number(n) => n.text().to_owned(),
            Expr::String(s) => {
                let mut code = "\"".to_owned();
                code.append(s.as_str());
                code.append("\"");
                code
            },
            Expr::Identifier(name) => name.clone(),
            Expr::Binary { left, op, right } => {
                let left_code = Self::generate_expr(left);
                let right_code = Self::generate_expr(right);
                let mut code = "(".to_owned();
                code.append(left_code.as_str());
                code.append(" ");
                code.append(op.to_str());
                code.append(" ");
                code.append(right_code.as_str());
                code.append(")");
                code
            },
        }
    }
}

} // verus!
