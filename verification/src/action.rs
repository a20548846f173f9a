//! What a statement asks of the interpreter.
use vstd::prelude::*;
use crate::ast::{Stmt, StmtV};
use crate::value::{Context, EvalError, Value, ValueV, eval_expr, value_text};

verus! {

/// The outcome of executing a statement, for the interpreter to carry out.
#[derive(Debug, Clone)]
pub enum Action {
    /// Go on with the next line.
    Continue,
    /// Go on with the given line.
    Jump(u32),
    /// Show a text.
    Output(String),
    /// Ask for input into a variable.
    Input(String),
    /// Set a variable.
    Assign(String, Value),
    /// Stop the program.
    End,
}

/// The mathematical value of an action.
pub enum ActionV {
    Continue,
    Jump(u32),
    Output(Seq<char>),
    Input(Seq<char>),
    Assign(Seq<char>, ValueV),
    End,
}

impl View for Action {
    type V = ActionV;

    open spec fn view(&self) -> ActionV {
        match self {
            Action::Continue => ActionV::Continue,
            Action::Jump(n) => ActionV::Jump(*n),
            Action::Output(s) => ActionV::Output(s@),
            Action::Input(s) => ActionV::Input(s@),
            Action::Assign(name, v) => ActionV::Assign(name@, v@),
            Action::End => ActionV::End,
        }
    }
}

/// The action of a statement with the given variables.
pub open spec fn stmt_action(s: StmtV, vars: Map<Seq<char>, ValueV>) -> Result<ActionV, EvalError> {
    match s {
        StmtV::Rem { .. } => Ok(ActionV::Continue),
        StmtV::Goto { lineno } => Ok(ActionV::Jump(lineno)),
        StmtV::Print { expr } => match eval_expr(expr, vars) {
            Ok(v) => Ok(ActionV::Output(value_text(v))),
            Err(e) => Err(e),
        },
        StmtV::Input { name } => Ok(ActionV::Input(name)),
        StmtV::Let { name, expr } => match eval_expr(expr, vars) {
            Ok(v) => Ok(ActionV::Assign(name, v)),
            Err(e) => Err(e),
        },
        StmtV::IfThen { conditional, lineno } => match eval_expr(conditional, vars) {
            Ok(ValueV::Boolean(b)) => if b {
                Ok(ActionV::Jump(lineno))
            } else {
                Ok(ActionV::Continue)
            },
            Ok(_) => Err(EvalError::IfConditionMismatch),
            Err(e) => Err(e),
        },
        StmtV::End => Ok(ActionV::End),
    }
}

/// The view of the result of executing a statement.
pub open spec fn action_result(r: Result<Action, EvalError>) -> Result<ActionV, EvalError> {
    match r {
        Ok(a) => Ok(a@),
        Err(e) => Err(e),
    }
}

impl Stmt {
    /// The action of the statement with the variables of `ctx`.
    pub fn execute(&self, ctx: &Context) -> (r: Result<Action, EvalError>)
        ensures
            action_result(r) == stmt_action(self@, ctx.variables@),
    {
        match self {
            Stmt::Rem { .. } => Ok(Action::Continue),
            Stmt::Goto { lineno } => Ok(Action::Jump(*lineno)),
            Stmt::Print { expr } => {
                let val = match expr.evaluate(ctx) {
                    Ok(v) => v,
                    Err(e) => return Err(e),
                };
                Ok(Action::Output(val.to_string()))
            },
            Stmt::Input { name } => Ok(Action::Input(name.clone())),
            Stmt::Let { name, expr } => {
                let val = match expr.evaluate(ctx) {
                    Ok(v) => v,
                    Err(e) => return Err(e),
                };
                Ok(Action::Assign(name.clone(), val))
            },
            Stmt::IfThen { conditional, lineno } => {
                let val = match conditional.evaluate(ctx) {
                    Ok(v) => v,
                    Err(e) => return Err(e),
                };
                let is_true = match val {
                    Value::Boolean(b) => b,
                    _ => return Err(EvalError::IfConditionMismatch),
                };
                if is_true {
                    Ok(Action::Jump(*lineno))
                } else {
                    Ok(Action::Continue)
                }
            },
            Stmt::End => Ok(Action::End),
        }
    }
}

} // verus!
