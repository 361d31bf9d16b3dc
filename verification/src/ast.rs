//! The syntax tree: positioned values, expressions, `let` statements and
//! programs, each with the mathematical value that contracts speak of.

use crate::decimal::Decimal;
use crate::text::same_text;
use vstd::prelude::*;

verus! {

/// A value together with the place in the source where it begins. Lines
/// and columns count from 1.
#[derive(Debug, PartialEq)]
pub struct Positioned<T> {
    pub value: T,
    pub line: usize,
    pub column: usize,
}

impl<T> Positioned<T> {
    pub fn new(value: T, line: usize, column: usize) -> (r: Self)
        ensures
            r.value == value,
            r.line == line,
            r.column == column,
    {
        Self { value, line, column }
    }
}

impl<T: Clone> Clone for Positioned<T> {
    fn clone(&self) -> (r: Self)
        ensures
            vstd::pervasive::cloned(self.value, r.value),
            r.line == self.line,
            r.column == self.column,
    {
        Positioned { value: self.value.clone(), line: self.line, column: self.column }
    }
}

impl<T: View> View for Positioned<T> {
    type V = Positioned<T::V>;

    open spec fn view(&self) -> Positioned<T::V> {
        Positioned { value: self.value@, line: self.line, column: self.column }
    }
}

/// The types of the language. `Unknown` is what an undeclared identifier
/// and an unrecognised annotation have.
#[derive(Debug, Clone, Copy, PartialEq, Eq, Structural)]
pub enum Type {
    Number,
    String,
    Unknown,
}

/// The type that an annotation names.
pub open spec fn annotated_type(annotation: Seq<char>) -> Type {
    if annotation == "number"@ {
        Type::Number
    } else if annotation == "string"@ {
        Type::String
    } else {
        Type::Unknown
    }
}

/// The name under which a type appears in diagnostics.
pub open spec fn type_label(t: Type) -> Seq<char> {
    match t {
        Type::Number => "Number"@,
        Type::String => "String"@,
        Type::Unknown => "Unknown"@,
    }
}

impl Type {
    pub fn from_annotation(annotation: &str) -> (t: Type)
        ensures
            t == annotated_type(annotation@),
    {
        if same_text(annotation, "number") {
            Type::Number
        } else if same_text(annotation, "string") {
            Type::String
        } else {
            Type::Unknown
        }
    }

    pub fn name(&self) -> (r: &'static str)
        ensures
            r@ == type_label(*self),
    {
        match self {
            Type::Number => "Number",
            Type::String => "String",
            Type::Unknown => "Unknown",
        }
    }
}

#[derive(Debug, Clone, Copy, PartialEq, Eq, Structural)]
pub enum BinaryOp {
    Add,
    Sub,
    Mul,
    Div,
}

/// The character that writes an operator.
pub open spec fn operator_symbol(op: BinaryOp) -> Seq<char> {
    match op {
        BinaryOp::Add => "+"@,
        BinaryOp::Sub => "-"@,
        BinaryOp::Mul => "*"@,
        BinaryOp::Div => "/"@,
    }
}

impl BinaryOp {
    pub fn to_str(&self) -> (r: &'static str)
        ensures
            r@ == operator_symbol(*self),
    {
        match self {
            BinaryOp::Add => "+",
            BinaryOp::Sub => "-",
            BinaryOp::Mul => "*",
            BinaryOp::Div => "/",
        }
    }
}

#[derive(Debug, PartialEq)]
pub enum Expr {
    String(String),
    Number(Decimal),
    Identifier(String),
    Binary { left: Box<Expr>, op: BinaryOp, right: Box<Expr> },
}

/// An expression as a mathematical value. A number is its canonical
/// decimal notation.
pub enum ExprView {
    String(Seq<char>),
    Number(Seq<char>),
    Identifier(Seq<char>),
    Binary { left: Box<ExprView>, op: BinaryOp, right: Box<ExprView> },
}

impl Expr {
    pub open spec fn model(&self) -> ExprView
        decreases self,
    {
        match self {
            Expr::String(s) => ExprView::String(s@),
            Expr::Number(n) => ExprView::Number(n@),
            Expr::Identifier(name) => ExprView::Identifier(name@),
            Expr::Binary { left, op, right } => ExprView::Binary {
                left: Box::new(left.model()),
                op: *op,
                right: Box::new(right.model()),
            },
        }
    }
}

impl View for Expr {
    type V = ExprView;

    open spec fn view(&self) -> ExprView {
        self.model()
    }
}

#[derive(Debug, PartialEq)]
pub struct LetStatement {
    pub name: Positioned<String>,
    pub declared_type: Positioned<String>,
    pub expression: Positioned<Expr>,
}

pub struct LetStatementView {
    pub name: Positioned<Seq<char>>,
    pub declared_type: Positioned<Seq<char>>,
    pub expression: Positioned<ExprView>,
}

impl View for LetStatement {
    type V = LetStatementView;

    open spec fn view(&self) -> LetStatementView {
        LetStatementView {
            name: self.name@,
            declared_type: self.declared_type@,
            expression: self.expression@,
        }
    }
}

/// The statements of a source text, in the order of the source.
#[derive(Debug, PartialEq)]
pub struct Program {
    pub statements: Vec<LetStatement>,
}

/// The views of a sequence of statements, in order.
pub open spec fn statement_views(statements: Seq<LetStatement>) -> Seq<LetStatementView> {
    Seq::new(statements.len(), |i: int| statements[i]@)
}

impl View for Program {
    type V = Seq<LetStatementView>;

    open spec fn view(&self) -> Seq<LetStatementView> {
        statement_views(self.statements@)
    }
}

/// The value of a result, its payload taken by its view.
pub open spec fn result_view<T: View, E: View>(r: Result<T, E>) -> Result<T::V, E::V> {
    match r {
        Ok(t) => Ok(t@),
        Err(e) => Err(e@),
    }
}

} // verus!
