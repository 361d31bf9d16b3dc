//! Static type checking of a program against the types its statements
//! declare.
//!
//! Statements are checked in order. Each one binds its name to its
//! declared type for the statements after it; a name that is not bound has
//! the type `Unknown`. Checking stops at the first failure.

use crate::ast::{
    annotated_type, operator_symbol, type_label, BinaryOp, Expr, ExprView, LetStatement,
    LetStatementView, Program, Type,
};
use crate::text::{decimal_digits, push_decimal};
use vstd::hash_map::StringHashMap;
use vstd::prelude::*;

verus! {

/// Why a program is ill-typed.
#[derive(Debug, PartialEq)]
pub enum TypeError {
    /// The expression of the statement that declares `name`, at the given
    /// position, does not have the type `declared`.
    Mismatch { name: String, line: usize, column: usize, declared: Type },
    /// An operator other than `+` stands between two strings.
    InvalidStringOperator { op: BinaryOp },
    /// The operands of `op` have different types.
    OperandMismatch { op: BinaryOp, left: Type, right: Type },
}

pub enum TypeErrorView {
    Mismatch { name: Seq<char>, line: usize, column: usize, declared: Type },
    InvalidStringOperator { op: BinaryOp },
    OperandMismatch { op: BinaryOp, left: Type, right: Type },
}

impl View for TypeError {
    type V = TypeErrorView;

    open spec fn view(&self) -> TypeErrorView {
        match self {
            TypeError::Mismatch { name, line, column, declared } => TypeErrorView::Mismatch {
                name: name@,
                line: *line,
                column: *column,
                declared: *declared,
            },
            TypeError::InvalidStringOperator { op } => TypeErrorView::InvalidStringOperator {
                op: *op,
            },
            TypeError::OperandMismatch { op, left, right } => TypeErrorView::OperandMismatch {
                op: *op,
                left: *left,
                right: *right,
            },
        }
    }
}

impl Clone for TypeError {
    fn clone(&self) -> (r: Self)
        ensures
            r@ == self@,
    {
        match self {
            TypeError::Mismatch { name, line, column, declared } => TypeError::Mismatch {
                name: name.clone(),
                line: *line,
                column: *column,
                declared: *declared,
            },
            TypeError::InvalidStringOperator { op } => TypeError::InvalidStringOperator { op: *op },
            TypeError::OperandMismatch { op, left, right } => TypeError::OperandMismatch {
                op: *op,
                left: *left,
                right: *right,
            },
        }
    }
}

/// The diagnostic text of a type error.
pub open spec fn type_message(e: TypeErrorView) -> Seq<char> {
    match e {
        TypeErrorView::Mismatch { name, line, column, declared } => decimal_digits(line as nat)
            + ":"@ + decimal_digits(column as nat) + " - Type mismatch for '"@ + name
            + "': expected "@ + type_label(declared),
        TypeErrorView::InvalidStringOperator { op } => "Type error: '"@ + operator_symbol(op)
            + "' can only be used for number operations, not with strings"@,
        TypeErrorView::OperandMismatch { op, left, right } => "Type error: Cannot apply '"@
            + operator_symbol(op) + "' operation between different types ("@ + type_label(left)
            + " and "@ + type_label(right) + ")"@,
    }
}

impl TypeError {
    pub fn message(&self) -> (r: String)
        ensures
            r@ == type_message(self@),
    {
        let mut out = String::new();
        match self {
            TypeError::Mismatch { name, line, column, declared } => {
                push_decimal(&mut out, *line);
                out.append(":");
                push_decimal(&mut out, *column);
                out.append(" - Type mismatch for '");
                out.append(name.as_str());
                out.append("': expected ");
                out.append(declared.name());
                assert(out@ =~= type_message(self@));
            },
            TypeError::InvalidStringOperator { op } => {
                out.append("Type error: '");
                out.append(op.to_str());
                out.append("' can only be used for number operations, not with strings");
                assert(out@ =~= type_message(self@));
            },
            TypeError::OperandMismatch { op, left, right } => {
                out.append("Type error: Cannot apply '");
                out.append(op.to_str());
                out.append("' operation between different types (");
                out.append(left.name());
                out.append(" and ");
                out.append(right.name());
                out.append(")");
                assert(out@ =~= type_message(self@));
            },
        }
        out
    }
}

/// The type of `left op right`, given the types of the operands: numbers
/// combine to a number under every operator, strings to a string under
/// `+` alone, and operands of different types do not combine. Two operands
/// of unknown type give an unknown type.
pub open spec fn operation_type(op: BinaryOp, left: Type, right: Type) -> Result<
    Type,
    TypeErrorView,
> {
    if left == Type::Number && right == Type::Number {
        Ok(Type::Number)
    } else if left == Type::String && right == Type::String {
        if op == BinaryOp::Add {
            Ok(Type::String)
        } else {
            Err(TypeErrorView::InvalidStringOperator { op })
        }
    } else if left != right {
        Err(TypeErrorView::OperandMismatch { op, left, right })
    } else {
        Ok(Type::Unknown)
    }
}

/// The type of an expression where the names of `env` have the types it
/// gives them, or the first failure met from left to right, operands
/// before their operator.
pub open spec fn expression_type(e: ExprView, env: Map<Seq<char>, Type>) -> Result<
    Type,
    TypeErrorView,
>
    decreases e,
{
    match e {
        ExprView::Number(_) => Ok(Type::Number),
        ExprView::String(_) => Ok(Type::String),
        ExprView::Identifier(name) => if env.contains_key(name) {
            Ok(env[name])
        } else {
            Ok(Type::Unknown)
        },
        ExprView::Binary { left, op, right } => match expression_type(*left, env) {
            Err(e) => Err(e),
            Ok(left_type) => match expression_type(*right, env) {
                Err(e) => Err(e),
                Ok(right_type) => operation_type(op, left_type, right_type),
            },
        },
    }
}

/// How far checking got: the names bound so far, and the failure that
/// stopped it, if any.
pub struct Checked {
    pub environment: Map<Seq<char>, Type>,
    pub failure: Option<TypeErrorView>,
}

/// Checks one statement in `env`. Its expression must have the declared
/// type; the name is then bound to the declared type, in place of an
/// earlier binding of the same name.
pub open spec fn check_statement(
    statement: LetStatementView,
    env: Map<Seq<char>, Type>,
) -> Checked {
    let declared = annotated_type(statement.declared_type.value);
    match expression_type(statement.expression.value, env) {
        Err(e) => Checked { environment: env, failure: Some(e) },
        Ok(actual) => if declared != actual {
            Checked {
                environment: env,
                failure: Some(
                    TypeErrorView::Mismatch {
                        name: statement.name.value,
                        line: statement.name.line,
                        column: statement.name.column,
                        declared,
                    },
                ),
            }
        } else {
            Checked { environment: env.insert(statement.name.value, declared), failure: None }
        },
    }
}

/// Checks the statements in order, starting in `env`, up to the first
/// failure.
pub open spec fn check_statements(
    statements: Seq<LetStatementView>,
    env: Map<Seq<char>, Type>,
) -> Checked
    decreases statements.len(),
{
    if statements.len() == 0 {
        Checked { environment: env, failure: None }
    } else {
        let before = check_statements(statements.drop_last(), env);
        if before.failure is Some {
            before
        } else {
            check_statement(statements.last(), before.environment)
        }
    }
}

/// Checks a program, starting with no name bound.
pub open spec fn check_program_spec(program: Seq<LetStatementView>) -> Checked {
    check_statements(program, Map::empty())
}

pub struct TypeChecker {
    env: StringHashMap<Type>,
}

impl TypeChecker {
    /// The types of the names bound so far.
    pub closed spec fn environment(&self) -> Map<Seq<char>, Type> {
        self.env@
    }

    pub fn new() -> (checker: Self)
        ensures
            checker.environment() == Map::<Seq<char>, Type>::empty(),
    {
        TypeChecker { env: StringHashMap::new() }
    }

    /// Checks a program in a fresh environment. Afterwards the environment
    /// holds the names that were bound before checking stopped.
    pub fn check_program(&mut self, program: &Program) -> (r: Result<(), TypeError>)
        ensures
            final(self).environment() == check_program_spec(program@).environment,
            match r {
                Ok(_) => check_program_spec(program@).failure is None,
                Err(e) => check_program_spec(program@).failure == Some(e@),
            },
    {
        self.env.clear();
        let n = program.statements.len();
        let mut i: usize = 0;
        while i < n
            invariant
                n == program.statements.len(),
                0 <= i <= n,
                check_statements(program@.take(i as int), Map::empty()) == (Checked {
                    environment: self.environment(),
                    failure: None,
                }),
            decreases n - i,
        {
            let ghost before = self.environment();
            let checked = self.check_let(&program.statements[i]);
            proof {
                assert(program@.take(i + 1).drop_last() =~= program@.take(i as int));
                assert(program@.take(i + 1).last() == program.statements[i as int]@);
            }
            match checked {
                Err(e) => {
                    proof {
                        lemma_failure_stays(program@, i + 1, Map::empty());
                    }
                    return Err(e);
                },
                Ok(_) => {},
            }
            i += 1;
        }
        assert(program@.take(n as int) =~= program@);
        Ok(())
    }

    fn check_let(&mut self, stmt: &LetStatement) -> (r: Result<(), TypeError>)
        ensures
            final(self).environment() == check_statement(
                stmt@,
                old(self).environment(),
            ).environment,
            match r {
                Ok(_) => check_statement(stmt@, old(self).environment()).failure is None,
                Err(e) => check_statement(stmt@, old(self).environment()).failure == Some(e@),
            },
    {
        let expected_type = Type::from_annotation(stmt.declared_type.value.as_str());
        let actual_type = match self.check_expr(&stmt.expression.value) {
            Err(e) => {
                return Err(e);
            },
            Ok(t) => t,
        };
        if expected_type != actual_type {
            return Err(
                TypeError::Mismatch {
                    name: stmt.name.value.clone(),
                    line: stmt.name.line,
                    column: stmt.name.column,
                    declared: expected_type,
                },
            );
        }
        self.env.insert(stmt.name.value.clone(), expected_type);
        Ok(())
    }

    fn check_expr(&self, expr: &Expr) -> (r: Result<Type, TypeError>)
        ensures
            match r {
                Ok(t) => Ok(t),
                Err(e) => Err(e@),
            } == expression_type(expr@, self.environment()),
        decreases expr,
    {
        match expr {
            Expr::Number(_) => Ok(Type::Number),
            Expr::String(_) => Ok(Type::String),
            Expr::Identifier(name) => match self.env.get(name.as_str()) {
                Some(t) => Ok(*t),
                None => Ok(Type::Unknown),
            },
            Expr::Binary { left, op, right } => {
                let left_type = match self.check_expr(left) {
                    Err(e) => {
                        return Err(e);
                    },
                    Ok(t) => t,
                };
                let right_type = match self.check_expr(right) {
                    Err(e) => {
                        return Err(e);
                    },
                    Ok(t) => t,
                };
                if left_type == Type::Number && right_type == Type::Number {
                    Ok(Type::Number)
                } else if left_type == Type::String && right_type == Type::String {
                    if *op == BinaryOp::Add {
                        Ok(Type::String)
                    } else {
                        Err(TypeError::InvalidStringOperator { op: *op })
                    }
                } else if left_type != right_type {
                    Err(TypeError::OperandMismatch { op: *op, left: left_type, right: right_type })
                } else {
                    Ok(Type::Unknown)
                }
            },
        }
    }
}

/// Once a statement has failed, the statements after it change nothing.
pub proof fn lemma_failure_stays(
    statements: Seq<LetStatementView>,
    n: int,
    env: Map<Seq<char>, Type>,
)
    requires
        0 <= n <= statements.len(),
        check_statements(statements.take(n), env).failure is Some,
    ensures
        check_statements(statements, env) == check_statements(statements.take(n), env),
    decreases statements.len() - n,
{
    if n < statements.len() {
        assert(statements.take(n + 1).drop_last() =~= statements.take(n));
        lemma_failure_stays(statements, n + 1, env);
    } else {
        assert(statements.take(n) =~= statements);
    }
}

/// Whether the statement at index `i` is the last that declares `name`.
pub open spec fn last_declaration(
    statements: Seq<LetStatementView>,
    name: Seq<char>,
    i: int,
) -> bool {
    &&& 0 <= i < statements.len()
    &&& statements[i].name.value == name
    &&& forall|j: int| i < j < statements.len() ==> (#[trigger] statements[j]).name.value != name
}

/// After a check that found no failure, the environment holds exactly the
/// names that the program declares, each with the type of its last
/// declaration.
pub proof fn lemma_checked_environment(statements: Seq<LetStatementView>, name: Seq<char>)
    requires
        check_program_spec(statements).failure is None,
    ensures
        check_program_spec(statements).environment.contains_key(name) <==> exists|i: int|
            last_declaration(statements, name, i),
        forall|i: int| #[trigger]
            last_declaration(statements, name, i) ==> check_program_spec(
                statements,
            ).environment[name] == annotated_type(statements[i].declared_type.value),
    decreases statements.len(),
{
    if statements.len() > 0 {
        let before = statements.drop_last();
        let last = statements.last();
        let n = statements.len() - 1;
        lemma_checked_environment(before, name);
        if last.name.value == name {
            assert(last_declaration(statements, name, n));
        } else {
            assert forall|i: int| last_declaration(before, name, i) implies last_declaration(
                statements,
                name,
                i,
            ) by {
                assert forall|j: int| i < j < statements.len() implies (
                #[trigger] statements[j]).name.value != name by {
                    if j < n {
                        assert(before[j] == statements[j]);
                    }
                }
            }
            assert forall|i: int| last_declaration(statements, name, i) implies last_declaration(
                before,
                name,
                i,
            ) by {
                assert forall|j: int| i < j < before.len() implies (#[trigger] before[j]).name.value
                    != name by {
                    assert(before[j] == statements[j]);
                }
            }
        }
    }
}

} // verus!
