//! The syntax tree of a line as text, with the statistics of its execution.
//!
//! Each node of an expression stands on a line of its own; a binary
//! operator comes before its operands, which are indented four spaces
//! deeper. A negation and a grouping keep their operand at their own depth,
//! and a grouping's `)` follows its expression directly.
use vstd::prelude::*;
use crate::ast::{BinaryOp, Expr, ExprV, Line, LineV, LiteralV, LiteralValue, Stmt, StmtV};
use crate::interpreter::{Interpreter, stats_at};
use crate::text::{nat_text, u64_text, append_str, push_char};
use crate::token::{Math, Relational};

verus! {

/// Where the statistics shown in a syntax tree come from.
///
/// The spec functions name what the methods return. Their default is an
/// unspecified value, so an implementation that is verified must define
/// them to prove its methods.
pub trait StatsProvider {
    /// How many times line `lineno` was executed.
    open spec fn spec_execution_count(&self, lineno: u32) -> u32 {
        arbitrary()
    }

    /// How many times the condition of the `IF` on line `lineno` held, and
    /// how many times it did not.
    open spec fn spec_if_branch_counts(&self, lineno: u32) -> (u32, u32) {
        arbitrary()
    }

    /// How many times the variable was read.
    open spec fn spec_variable_use_count(&self, name: Seq<char>) -> u32 {
        arbitrary()
    }

    /// How many times line `lineno` was executed.
    fn execution_count(&self, lineno: u32) -> (r: u32)
        ensures
            r == self.spec_execution_count(lineno),
    ;

    /// How many times the condition of the `IF` on line `lineno` held, and
    /// how many times it did not.
    fn if_branch_counts(&self, lineno: u32) -> (r: (u32, u32))
        ensures
            r == self.spec_if_branch_counts(lineno),
    ;

    /// How many times the variable was read.
    fn variable_use_count(&self, name: &str) -> (r: u32)
        ensures
            r == self.spec_variable_use_count(name@),
    ;
}

/// One level of indentation.
pub open spec fn tab() -> Seq<char> {
    seq![' ', ' ', ' ', ' ']
}

/// The symbol of a binary operator.
pub open spec fn op_text(op: BinaryOp) -> Seq<char> {
    match op {
        BinaryOp::Arithmetic(m) => match m {
            Math::Plus => "+"@,
            Math::Minus => "-"@,
            Math::Times => "*"@,
            Math::Division => "/"@,
            Math::Power => "**"@,
            Math::Modulo => "MOD"@,
        },
        BinaryOp::Relational(r) => match r {
            Relational::Lt => "<"@,
            Relational::LtEq => "<="@,
            Relational::Gt => ">"@,
            Relational::GtEq => ">="@,
            Relational::NotEq => "<>"@,
            Relational::Eq => "="@,
        },
    }
}

/// The text of a literal; an empty literal has none.
pub open spec fn literal_text(l: LiteralV) -> Seq<char> {
    match l {
        LiteralV::Integer(n) => nat_text(n as nat),
        LiteralV::String(s) => s,
        LiteralV::Empty => Seq::empty(),
    }
}

/// The tree of an expression whose root is indented by `ind`.
pub open spec fn expr_tree(e: ExprV, ind: Seq<char>) -> Seq<char>
    decreases e,
{
    match e {
        ExprV::Binary { operator, left, right } => ind + op_text(operator) + seq!['\n']
            + expr_tree(*left, ind + tab()) + seq!['\n'] + expr_tree(*right, ind + tab()),
        ExprV::Unary { right, .. } => ind + seq!['-', '\n'] + expr_tree(*right, ind),
        ExprV::Grouping { expression } => ind + seq!['(', '\n'] + expr_tree(*expression, ind) + ind
            + seq![')'],
        ExprV::Literal(l) => ind + literal_text(l),
        ExprV::Variable { name } => ind + name,
    }
}

/// The tree of a line, given how many times it ran, the outcomes of its
/// `IF` condition, and how many times the variable it assigns was read.
pub open spec fn line_tree(l: LineV, count: u32, branches: (u32, u32), uses: u32) -> Seq<char> {
    nat_text(l.lineno as nat) + seq![' '] + match l.statement {
        StmtV::Let { name, expr } => "LET = "@ + nat_text(count as nat) + seq!['\n'] + tab() + name
            + seq![' '] + nat_text(uses as nat) + seq!['\n'] + expr_tree(expr, tab()),
        StmtV::Rem { comment } => "REM "@ + nat_text(count as nat) + seq!['\n'] + tab() + comment,
        StmtV::Print { expr } => "PRINT "@ + nat_text(count as nat) + seq!['\n'] + expr_tree(expr, tab()),
        StmtV::Input { name } => "INPUT "@ + nat_text(count as nat) + seq!['\n'] + tab() + name,
        StmtV::Goto { lineno } => "GOTO "@ + nat_text(count as nat) + seq!['\n'] + tab() + nat_text(
            lineno as nat,
        ),
        StmtV::IfThen { conditional, lineno } => "IF THEN "@ + nat_text(branches.0 as nat) + seq![' ']
            + nat_text(branches.1 as nat) + seq!['\n'] + expr_tree(conditional, tab()) + seq!['\n']
            + tab() + nat_text(lineno as nat),
        StmtV::End => "END "@ + nat_text(count as nat),
    }
}

fn op_symbol(op: BinaryOp) -> (r: &'static str)
    ensures
        r@ == op_text(op),
{
    match op {
        BinaryOp::Arithmetic(m) => match m {
            Math::Plus => "+",
            Math::Minus => "-",
            Math::Times => "*",
            Math::Division => "/",
            Math::Power => "**",
            Math::Modulo => "MOD",
        },
        BinaryOp::Relational(r) => match r {
            Relational::Lt => "<",
            Relational::LtEq => "<=",
            Relational::Gt => ">",
            Relational::GtEq => ">=",
            Relational::NotEq => "<>",
            Relational::Eq => "=",
        },
    }
}

fn append_nat(out: &mut String, n: u32)
    ensures
        final(out)@ == old(out)@ + nat_text(n as nat),
{
    append_str(out, u64_text(n as u64).as_str());
}

fn append_tab(out: &mut String)
    ensures
        final(out)@ == old(out)@ + tab(),
{
    append_str(out, "    ");
    proof {
        reveal_strlit("    ");
    }
}

/// Appends the tree of an expression whose root is indented by `ind`.
fn render_expr(e: &Expr, ind: &String, out: &mut String)
    ensures
        final(out)@ == old(out)@ + expr_tree(e@, ind@),
    decreases e,
{
    let ghost start = out@;
    match e {
        Expr::Binary { operator, left, right } => {
            let mut inner = ind.clone();
            append_tab(&mut inner);
            append_str(out, ind.as_str());
            append_str(out, op_symbol(*operator));
            push_char(out, '\n');
            render_expr(left, &inner, out);
            push_char(out, '\n');
            render_expr(right, &inner, out);
            assert(out@ =~= start + expr_tree(e@, ind@));
        },
        Expr::Unary { right, .. } => {
            append_str(out, ind.as_str());
            push_char(out, '-');
            push_char(out, '\n');
            render_expr(right, ind, out);
            assert(out@ =~= start + expr_tree(e@, ind@));
        },
        Expr::Grouping { expression } => {
            append_str(out, ind.as_str());
            push_char(out, '(');
            push_char(out, '\n');
            render_expr(expression, ind, out);
            append_str(out, ind.as_str());
            push_char(out, ')');
            assert(out@ =~= start + expr_tree(e@, ind@));
        },
        Expr::Literal(l) => {
            append_str(out, ind.as_str());
            match l {
                LiteralValue::Integer(n) => append_nat(out, *n),
                LiteralValue::String(s) => append_str(out, s.as_str()),
                LiteralValue::Empty => {},
            }
            assert(out@ =~= start + expr_tree(e@, ind@));
        },
        Expr::Variable { name } => {
            append_str(out, ind.as_str());
            append_str(out, name.as_str());
        },
    }
}

/// The tree of a line with the given statistics.
pub fn render_line(line: &Line, count: u32, branches: (u32, u32), uses: u32) -> (r: String)
    ensures
        r@ == line_tree(line@, count, branches, uses),
{
    let mut out = String::new();
    append_nat(&mut out, line.lineno);
    push_char(&mut out, ' ');
    let ghost head = out@;
    let mut ind = String::new();
    append_tab(&mut ind);
    match &line.statement {
        Stmt::Let { name, expr } => {
            append_str(&mut out, "LET = ");
            append_nat(&mut out, count);
            push_char(&mut out, '\n');
            append_tab(&mut out);
            append_str(&mut out, name.as_str());
            push_char(&mut out, ' ');
            append_nat(&mut out, uses);
            push_char(&mut out, '\n');
            render_expr(expr, &ind, &mut out);
        },
        Stmt::Rem { comment } => {
            append_str(&mut out, "REM ");
            append_nat(&mut out, count);
            push_char(&mut out, '\n');
            append_tab(&mut out);
            append_str(&mut out, comment.as_str());
        },
        Stmt::Print { expr } => {
            append_str(&mut out, "PRINT ");
            append_nat(&mut out, count);
            push_char(&mut out, '\n');
            render_expr(expr, &ind, &mut out);
        },
        Stmt::Input { name } => {
            append_str(&mut out, "INPUT ");
            append_nat(&mut out, count);
            push_char(&mut out, '\n');
            append_tab(&mut out);
            append_str(&mut out, name.as_str());
        },
        Stmt::Goto { lineno } => {
            append_str(&mut out, "GOTO ");
            append_nat(&mut out, count);
            push_char(&mut out, '\n');
            append_tab(&mut out);
            append_nat(&mut out, *lineno);
        },
        Stmt::IfThen { conditional, lineno } => {
            append_str(&mut out, "IF THEN ");
            append_nat(&mut out, branches.0);
            push_char(&mut out, ' ');
            append_nat(&mut out, branches.1);
            push_char(&mut out, '\n');
            render_expr(conditional, &ind, &mut out);
            push_char(&mut out, '\n');
            append_tab(&mut out);
            append_nat(&mut out, *lineno);
        },
        Stmt::End => {
            append_str(&mut out, "END ");
            append_nat(&mut out, count);
        },
    }
    assert(out@ =~= line_tree(line@, count, branches, uses));
    out
}

impl Line {
    /// The syntax tree of the line, with statistics from `stats`: an `IF`
    /// shows how often its condition held and failed, a `LET` how often its
    /// variable was read, every other statement how often it ran.
    pub fn format_syntax_tree<S: StatsProvider>(&self, stats: &S) -> (r: String)
        ensures
            r@ == line_tree(
                self@,
                match self.statement@ {
                    StmtV::IfThen { .. } => 0,
                    _ => stats.spec_execution_count(self.lineno),
                },
                match self.statement@ {
                    StmtV::IfThen { .. } => stats.spec_if_branch_counts(self.lineno),
                    _ => (0, 0),
                },
                match self.statement@ {
                    StmtV::Let { name, .. } => stats.spec_variable_use_count(name),
                    _ => 0,
                },
            ),
    {
        let (count, branches, uses) = match &self.statement {
            Stmt::IfThen { .. } => (0, stats.if_branch_counts(self.lineno), 0),
            Stmt::Let { name, .. } => (
                stats.execution_count(self.lineno),
                (0, 0),
                stats.variable_use_count(name.as_str()),
            ),
            _ => (stats.execution_count(self.lineno), (0, 0), 0),
        };
        render_line(self, count, branches, uses)
    }
}

/// How many times a variable was read, zero where never.
pub open spec fn use_count(m: Map<Seq<char>, u32>, name: Seq<char>) -> u32 {
    if m.contains_key(name) { m[name] } else { 0 }
}

impl StatsProvider for Interpreter {
    open spec fn spec_execution_count(&self, lineno: u32) -> u32 {
        stats_at(self@.stats, lineno).execution_count
    }

    open spec fn spec_if_branch_counts(&self, lineno: u32) -> (u32, u32) {
        (stats_at(self@.stats, lineno).if_true_count, stats_at(self@.stats, lineno).if_false_count)
    }

    open spec fn spec_variable_use_count(&self, name: Seq<char>) -> u32 {
        use_count(self@.uses, name)
    }

    fn execution_count(&self, lineno: u32) -> (r: u32) {
        match self.line_stats().get(&lineno) {
            Some(s) => s.execution_count,
            None => 0,
        }
    }

    fn if_branch_counts(&self, lineno: u32) -> (r: (u32, u32)) {
        match self.line_stats().get(&lineno) {
            Some(s) => (s.if_true_count, s.if_false_count),
            None => (0, 0),
        }
    }

    fn variable_use_count(&self, name: &str) -> (r: u32) {
        match self.variable_use_counts().get(name) {
            Some(c) => *c,
            None => 0,
        }
    }
}

impl Interpreter {
    /// The syntax tree of a line, with the statistics of this interpreter.
    pub fn generate_syntax_tree(&self, line: &Line) -> (r: String)
        ensures
            r@ == line_tree(
                line@,
                stats_at(self@.stats, line.lineno).execution_count,
                (
                    stats_at(self@.stats, line.lineno).if_true_count,
                    stats_at(self@.stats, line.lineno).if_false_count,
                ),
                match line.statement@ {
                    StmtV::Let { name, .. } => use_count(self@.uses, name),
                    _ => 0,
                },
            ),
    {
        let count = self.execution_count(line.lineno);
        let branches = self.if_branch_counts(line.lineno);
        let uses = match &line.statement {
            Stmt::Let { name, .. } => self.variable_use_count(name.as_str()),
            _ => 0,
        };
        render_line(line, count, branches, uses)
    }
}

} // verus!
