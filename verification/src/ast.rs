//! The syntax tree of QBasic programs.
use vstd::prelude::*;
use crate::token::{Math, Relational};

verus! {

/// A binary operator.
#[derive(Debug, Clone, Copy, PartialEq, Eq, Structural)]
pub enum BinaryOp {
    /// `+`, `-`, `*`, `/`, `**`, `MOD`
    Arithmetic(Math),
    /// `=`, `<>`, `<`, `<=`, `>`, `>=`
    Relational(Relational),
}

/// A unary operator.
#[derive(Debug, Clone, Copy, PartialEq, Eq, Structural)]
pub enum UnaryOp {
    /// `-`
    Negate,
}

/// An expression.
#[derive(Debug)]
pub enum Expr {
    Binary { operator: BinaryOp, left: Box<Expr>, right: Box<Expr> },
    Unary { operator: UnaryOp, right: Box<Expr> },
    Grouping { expression: Box<Expr> },
    Literal(LiteralValue),
    Variable { name: String },
}

/// A literal value.
#[derive(Debug, Clone)]
pub enum LiteralValue {
    Integer(u32),
    String(String),
    /// No value: what an empty `PRINT` prints.
    Empty,
}

/// A QBasic statement.
#[derive(Debug, Clone)]
pub enum Stmt {
    Rem { comment: String },
    Let { name: String, expr: Expr },
    Print { expr: Expr },
    Input { name: String },
    Goto { lineno: u32 },
    IfThen { conditional: Expr, lineno: u32 },
    End,
}

/// A line of QBasic code.
#[derive(Debug, Clone)]
pub struct Line {
    pub lineno: u32,
    pub statement: Stmt,
}

/// The mathematical value of a literal.
pub enum LiteralV {
    Integer(u32),
    String(Seq<char>),
    Empty,
}

/// The mathematical value of an expression.
pub enum ExprV {
    Binary { operator: BinaryOp, left: Box<ExprV>, right: Box<ExprV> },
    Unary { operator: UnaryOp, right: Box<ExprV> },
    Grouping { expression: Box<ExprV> },
    Literal(LiteralV),
    Variable { name: Seq<char> },
}

/// The mathematical value of a statement.
pub enum StmtV {
    Rem { comment: Seq<char> },
    Let { name: Seq<char>, expr: ExprV },
    Print { expr: ExprV },
    Input { name: Seq<char> },
    Goto { lineno: u32 },
    IfThen { conditional: ExprV, lineno: u32 },
    End,
}

/// The mathematical value of a line.
pub struct LineV {
    pub lineno: u32,
    pub statement: StmtV,
}

impl View for LiteralValue {
    type V = LiteralV;

    open spec fn view(&self) -> LiteralV {
        match self {
            LiteralValue::Integer(n) => LiteralV::Integer(*n),
            LiteralValue::String(s) => LiteralV::String(s@),
            LiteralValue::Empty => LiteralV::Empty,
        }
    }
}

pub open spec fn expr_view(e: Expr) -> ExprV
    decreases e,
{
    match e {
        Expr::Binary { operator, left, right } => ExprV::Binary {
            operator,
            left: Box::new(expr_view(*left)),
            right: Box::new(expr_view(*right)),
        },
        Expr::Unary { operator, right } => ExprV::Unary {
            operator,
            right: Box::new(expr_view(*right)),
        },
        Expr::Grouping { expression } => ExprV::Grouping {
            expression: Box::new(expr_view(*expression)),
        },
        Expr::Literal(l) => ExprV::Literal(l@),
        Expr::Variable { name } => ExprV::Variable { name: name@ },
    }
}

impl View for Expr {
    type V = ExprV;

    open spec fn view(&self) -> ExprV {
        expr_view(*self)
    }
}

impl View for Stmt {
    type V = StmtV;

    open spec fn view(&self) -> StmtV {
        match self {
            Stmt::Rem { comment } => StmtV::Rem { comment: comment@ },
            Stmt::Let { name, expr } => StmtV::Let { name: name@, expr: expr@ },
            Stmt::Print { expr } => StmtV::Print { expr: expr@ },
            Stmt::Input { name } => StmtV::Input { name: name@ },
            Stmt::Goto { lineno } => StmtV::Goto { lineno: *lineno },
            Stmt::IfThen { conditional, lineno } => StmtV::IfThen {
                conditional: conditional@,
                lineno: *lineno,
            },
            Stmt::End => StmtV::End,
        }
    }
}

impl View for Line {
    type V = LineV;

    open spec fn view(&self) -> LineV {
        LineV { lineno: self.lineno, statement: self.statement@ }
    }
}

impl LiteralValue {
    /// A copy of the literal.
    pub fn duplicate(&self) -> (r: LiteralValue)
        ensures
            r@ == self@,
    {
        match self {
            LiteralValue::Integer(n) => LiteralValue::Integer(*n),
            LiteralValue::String(s) => LiteralValue::String(s.clone()),
            LiteralValue::Empty => LiteralValue::Empty,
        }
    }
}

impl Expr {
    /// A deep copy of the expression.
    pub fn duplicate(&self) -> (r: Expr)
        ensures
            r@ == self@,
        decreases self,
    {
        match self {
            Expr::Binary { operator, left, right } => Expr::Binary {
                operator: *operator,
                left: Box::new(left.duplicate()),
                right: Box::new(right.duplicate()),
            },
            Expr::Unary { operator, right } => Expr::Unary {
                operator: *operator,
                right: Box::new(right.duplicate()),
            },
            Expr::Grouping { expression } => Expr::Grouping {
                expression: Box::new(expression.duplicate()),
            },
            Expr::Literal(l) => Expr::Literal(l.duplicate()),
            Expr::Variable { name } => Expr::Variable { name: name.clone() },
        }
    }
}

impl Clone for Expr {
    fn clone(&self) -> (r: Expr)
        ensures
            r@ == self@,
    {
        self.duplicate()
    }
}

impl Stmt {
    /// A deep copy of the statement.
    pub fn duplicate(&self) -> (r: Stmt)
        ensures
            r@ == self@,
    {
        match self {
            Stmt::Rem { comment } => Stmt::Rem { comment: comment.clone() },
            Stmt::Let { name, expr } => Stmt::Let { name: name.clone(), expr: expr.duplicate() },
            Stmt::Print { expr } => Stmt::Print { expr: expr.duplicate() },
            Stmt::Input { name } => Stmt::Input { name: name.clone() },
            Stmt::Goto { lineno } => Stmt::Goto { lineno: *lineno },
            Stmt::IfThen { conditional, lineno } => Stmt::IfThen {
                conditional: conditional.duplicate(),
                lineno: *lineno,
            },
            Stmt::End => Stmt::End,
        }
    }
}

impl Line {
    /// A deep copy of the line.
    pub fn duplicate(&self) -> (r: Line)
        ensures
            r@ == self@,
    {
        Line { lineno: self.lineno, statement: self.statement.duplicate() }
    }
}

} // verus!
