//! The interpreter: a state machine that runs a program one statement at a
//! time, records statistics, and reports what happens as events.
use vstd::prelude::*;
use std::collections::HashMap;
use crate::action::{Action, ActionV, stmt_action};
use crate::ast::{Expr, ExprV, Line, LineV, Stmt, StmtV};
use crate::event::{EventQueue, EventV, InterpreterEvent, events_view};
use crate::names::NameMap;
use crate::text::{nat_text, u64_text, append_str, string_from_str};
use crate::value::{Context, Value, ValueV, eval_error_text, value_text};

verus! {

broadcast use vstd::std_specs::hash::group_hash_axioms;

/// Statistics of one line.
#[derive(Debug, Clone, Copy)]
pub struct LineStats {
    /// How many times the line was executed.
    pub execution_count: u32,
    /// How many times the condition of the `IF` on the line held.
    pub if_true_count: u32,
    /// How many times the condition of the `IF` on the line did not hold.
    pub if_false_count: u32,
}

/// The statistics of a line that never ran.
pub open spec fn zero_stats() -> LineStats {
    LineStats { execution_count: 0, if_true_count: 0, if_false_count: 0 }
}

impl Default for LineStats {
    fn default() -> (s: LineStats)
        ensures
            s == zero_stats(),
    {
        LineStats { execution_count: 0, if_true_count: 0, if_false_count: 0 }
    }
}

/// The state of the interpreter.
#[derive(Debug, Clone, PartialEq)]
pub enum InterpreterState {
    /// Ready to execute the next statement.
    Ready,
    /// Waiting for input into the named variable.
    WaitingForInput(String),
    /// The program has finished.
    Finished,
    /// A runtime error occurred.
    Error(String),
}

/// The mathematical value of an interpreter state.
pub enum StateV {
    Ready,
    WaitingForInput(Seq<char>),
    Finished,
    Error(Seq<char>),
}

impl View for InterpreterState {
    type V = StateV;

    open spec fn view(&self) -> StateV {
        match self {
            InterpreterState::Ready => StateV::Ready,
            InterpreterState::WaitingForInput(s) => StateV::WaitingForInput(s@),
            InterpreterState::Finished => StateV::Finished,
            InterpreterState::Error(s) => StateV::Error(s@),
        }
    }
}

impl Default for InterpreterState {
    fn default() -> (s: InterpreterState)
        ensures
            s@ == StateV::Ready,
    {
        InterpreterState::Ready
    }
}

/// The mathematical value of an interpreter.
pub struct InterpV {
    /// The variables.
    pub vars: Map<Seq<char>, ValueV>,
    /// The lines of the program.
    pub program: Seq<LineV>,
    /// The number of the current line.
    pub pc: u32,
    pub state: StateV,
    /// The events not yet taken, oldest first.
    pub events: Seq<EventV>,
    /// Statistics by line number.
    pub stats: Map<u32, LineStats>,
    /// How many times each variable was read by executed statements.
    pub uses: Map<Seq<char>, u32>,
    /// The current line printed its output; the next step goes on from it.
    pub resume: bool,
}

// ---------------------------------------------------------------------------
// Programs

/// The first line of the list, in list order, whose number exceeds `pc`.
pub open spec fn next_after(ls: Seq<LineV>, pc: u32) -> Option<u32>
    decreases ls.len(),
{
    if ls.len() == 0 {
        None
    } else if ls[0].lineno > pc {
        Some(ls[0].lineno)
    } else {
        next_after(ls.drop_first(), pc)
    }
}

/// The statement of the first line with number `n`.
pub open spec fn stmt_at(ls: Seq<LineV>, n: u32) -> Option<StmtV>
    decreases ls.len(),
{
    if ls.len() == 0 {
        None
    } else if ls[0].lineno == n {
        Some(ls[0].statement)
    } else {
        stmt_at(ls.drop_first(), n)
    }
}

/// The line numbers of the list increase strictly.
pub open spec fn sorted_lines(ls: Seq<LineV>) -> bool {
    forall|i: int, j: int| 0 <= i < j < ls.len() ==> ls[i].lineno < ls[j].lineno
}

/// A program with a line added: in order of line numbers, replacing a line
/// with the same number.
pub open spec fn insert_line(ls: Seq<LineV>, l: LineV) -> Seq<LineV>
    decreases ls.len(),
{
    if ls.len() == 0 {
        seq![l]
    } else if l.lineno < ls[0].lineno {
        seq![l] + ls
    } else if l.lineno == ls[0].lineno {
        ls.update(0, l)
    } else {
        seq![ls[0]] + insert_line(ls.drop_first(), l)
    }
}

/// The program made of the given lines, added in order: a later line
/// replaces an earlier one with the same number.
pub open spec fn program_of(lines: Seq<LineV>) -> Seq<LineV>
    decreases lines.len(),
{
    if lines.len() == 0 {
        Seq::empty()
    } else {
        insert_line(program_of(lines.drop_last()), lines.last())
    }
}

/// The views of a list of lines.
pub open spec fn lines_view(ls: Seq<Line>) -> Seq<LineV> {
    ls.map_values(|l: Line| l@)
}

// ---------------------------------------------------------------------------
// Statistics

/// One more, short of overflow.
pub open spec fn sat_inc(x: u32) -> u32 {
    if x < u32::MAX { (x + 1) as u32 } else { x }
}

/// The statistics of a line, zero where it never ran.
pub open spec fn stats_at(m: Map<u32, LineStats>, n: u32) -> LineStats {
    if m.contains_key(n) { m[n] } else { zero_stats() }
}

/// The statistics after one more execution of line `n`.
pub open spec fn count_execution(m: Map<u32, LineStats>, n: u32) -> Map<u32, LineStats> {
    let s = stats_at(m, n);
    m.insert(
        n,
        LineStats {
            execution_count: sat_inc(s.execution_count),
            if_true_count: s.if_true_count,
            if_false_count: s.if_false_count,
        },
    )
}

/// The statistics after the condition of the `IF` on line `n` held (`taken`)
/// or did not.
pub open spec fn count_branch(m: Map<u32, LineStats>, n: u32, taken: bool) -> Map<u32, LineStats> {
    let s = stats_at(m, n);
    m.insert(
        n,
        LineStats {
            execution_count: s.execution_count,
            if_true_count: if taken { sat_inc(s.if_true_count) } else { s.if_true_count },
            if_false_count: if taken { s.if_false_count } else { sat_inc(s.if_false_count) },
        },
    )
}

/// The variables that an expression reads, left to right, once per
/// occurrence.
pub open spec fn expr_names(e: ExprV) -> Seq<Seq<char>>
    decreases e,
{
    match e {
        ExprV::Binary { left, right, .. } => expr_names(*left) + expr_names(*right),
        ExprV::Unary { right, .. } => expr_names(*right),
        ExprV::Grouping { expression } => expr_names(*expression),
        ExprV::Literal(_) => Seq::empty(),
        ExprV::Variable { name } => seq![name],
    }
}

/// The variables that a statement reads.
pub open spec fn stmt_names(s: StmtV) -> Seq<Seq<char>> {
    match s {
        StmtV::Let { expr, .. } => expr_names(expr),
        StmtV::Print { expr } => expr_names(expr),
        StmtV::IfThen { conditional, .. } => expr_names(conditional),
        _ => Seq::empty(),
    }
}

/// The use counts after one more use of `k`.
pub open spec fn bump(m: Map<Seq<char>, u32>, k: Seq<char>) -> Map<Seq<char>, u32> {
    m.insert(k, sat_inc(if m.contains_key(k) { m[k] } else { 0 }))
}

/// The use counts after one use of each name of the list.
pub open spec fn add_uses(m: Map<Seq<char>, u32>, names: Seq<Seq<char>>) -> Map<Seq<char>, u32>
    decreases names.len(),
{
    if names.len() == 0 {
        m
    } else {
        add_uses(bump(m, names[0]), names.drop_first())
    }
}

/// How many times `n` occurs in the list.
pub open spec fn occurrences(names: Seq<Seq<char>>, n: Seq<char>) -> nat
    decreases names.len(),
{
    if names.len() == 0 {
        0
    } else {
        (if names[0] == n { 1nat } else { 0nat }) + occurrences(names.drop_first(), n)
    }
}

/// The names an expression reads are those of its parts: parentheses and
/// negation read what their operand reads, an operator what its left and
/// then its right operand read, a variable its own name, a literal none.
pub proof fn law_expression_names(e: ExprV, op: crate::ast::BinaryOp, u: crate::ast::UnaryOp, other: ExprV, name: Seq<char>, l: crate::ast::LiteralV)
    ensures
        expr_names(ExprV::Grouping { expression: Box::new(e) }) == expr_names(e),
        expr_names(ExprV::Unary { operator: u, right: Box::new(e) }) == expr_names(e),
        expr_names(ExprV::Binary { operator: op, left: Box::new(e), right: Box::new(other) })
            == expr_names(e) + expr_names(other),
        expr_names(ExprV::Variable { name }) == seq![name],
        expr_names(ExprV::Literal(l)) == Seq::<Seq<char>>::empty(),
{
}

/// The value of an expression depends only on the variables it reads: two
/// sets of variables that agree on every name of `expr_names(e)` give `e`
/// the same value.
pub proof fn law_value_depends_on_names(e: ExprV, v1: Map<Seq<char>, ValueV>, v2: Map<Seq<char>, ValueV>)
    requires
        forall|n: Seq<char>| #[trigger] expr_names(e).contains(n) ==> v1.contains_key(n) == v2.contains_key(n)
            && (v1.contains_key(n) ==> v1[n] == v2[n]),
    ensures
        crate::value::eval_expr(e, v1) == crate::value::eval_expr(e, v2),
    decreases e,
{
    match e {
        ExprV::Binary { left, right, .. } => {
            assert forall|n: Seq<char>| #[trigger] expr_names(*left).contains(n) implies expr_names(e).contains(n) by {
                let k = choose|k: int| 0 <= k < expr_names(*left).len() && expr_names(*left)[k] == n;
                assert(expr_names(e)[k] == n);
            }
            assert forall|n: Seq<char>| #[trigger] expr_names(*right).contains(n) implies expr_names(e).contains(n) by {
                let k = choose|k: int| 0 <= k < expr_names(*right).len() && expr_names(*right)[k] == n;
                assert(expr_names(e)[expr_names(*left).len() + k] == n);
            }
            law_value_depends_on_names(*left, v1, v2);
            law_value_depends_on_names(*right, v1, v2);
            assert(crate::value::eval_expr(*left, v1) == crate::value::eval_expr(*left, v2));
            assert(crate::value::eval_expr(*right, v1) == crate::value::eval_expr(*right, v2));
        },
        ExprV::Unary { right, .. } => {
            assert(expr_names(e) == expr_names(*right));
            law_value_depends_on_names(*right, v1, v2);
        },
        ExprV::Grouping { expression } => {
            assert(expr_names(e) == expr_names(*expression));
            law_value_depends_on_names(*expression, v1, v2);
        },
        ExprV::Literal(_) => {},
        ExprV::Variable { name } => {
            assert(expr_names(e)[0] == name);
            assert(expr_names(e).contains(name));
        },
    }
}

/// Every read counts one use: after the uses of a list of names, the count
/// of each name has grown by the number of times it occurs in the list (as
/// long as no count reaches its maximum).
pub proof fn law_uses_count_occurrences(m: Map<Seq<char>, u32>, names: Seq<Seq<char>>, n: Seq<char>)
    requires
        (if m.contains_key(n) { m[n] as int } else { 0 }) + occurrences(names, n) <= u32::MAX,
    ensures
        add_uses(m, names).contains_key(n) == (m.contains_key(n) || occurrences(names, n) > 0),
        (if add_uses(m, names).contains_key(n) { add_uses(m, names)[n] as int } else { 0 }) == (if m.contains_key(
            n,
        ) {
            m[n] as int
        } else {
            0
        }) + occurrences(names, n),
    decreases names.len(),
{
    if names.len() > 0 {
        law_uses_count_occurrences(bump(m, names[0]), names.drop_first(), n);
    }
}

// ---------------------------------------------------------------------------
// Messages

pub open spec fn moving_text(n: u32) -> Seq<char> {
    "Moving to line "@ + nat_text(n as nat)
}

pub open spec fn jumping_text(n: u32) -> Seq<char> {
    "Jumping to line "@ + nat_text(n as nat)
}

pub open spec fn not_found_text(n: u32) -> Seq<char> {
    "Line "@ + nat_text(n as nat) + " not found"@
}

pub open spec fn input_received_text(name: Seq<char>, v: ValueV) -> Seq<char> {
    "Input received for "@ + name + ": "@ + value_text(v)
}

pub open spec fn moving_after_input_text(n: u32) -> Seq<char> {
    "Moving to line "@ + nat_text(n as nat) + " after input"@
}

// ---------------------------------------------------------------------------
// Transitions

/// Going on with the next line: the first line with a greater number, or
/// the end of the program.
pub open spec fn advance(s: InterpV) -> InterpV {
    match next_after(s.program, s.pc) {
        Some(n) => InterpV { pc: n, events: s.events.push(EventV::Debug(moving_text(n))), resume: false, ..s },
        None => InterpV { state: StateV::Finished, events: s.events.push(EventV::Finished), resume: false, ..s },
    }
}

/// Carrying out an action.
pub open spec fn apply(s: InterpV, a: ActionV) -> InterpV {
    match a {
        ActionV::Continue => advance(s),
        ActionV::Jump(n) => if stmt_at(s.program, n) is Some {
            InterpV { pc: n, events: s.events.push(EventV::Debug(jumping_text(n))), ..s }
        } else {
            InterpV {
                state: StateV::Error(not_found_text(n)),
                events: s.events.push(EventV::Error(not_found_text(n))),
                ..s
            }
        },
        ActionV::Output(t) => InterpV { events: s.events.push(EventV::Output(t)), resume: true, ..s },
        ActionV::Input(name) => InterpV {
            state: StateV::WaitingForInput(name),
            events: s.events.push(EventV::Input(name)),
            ..s
        },
        ActionV::Assign(name, v) => advance(InterpV { vars: s.vars.insert(name, v), ..s }),
        ActionV::End => InterpV { state: StateV::Finished, events: s.events.push(EventV::Finished), ..s },
    }
}

/// Executing the statement of the current line: its statistics are counted
/// first, then its action is carried out, or its error reported.
pub open spec fn run_line(s: InterpV) -> InterpV {
    match stmt_at(s.program, s.pc) {
        None => InterpV { state: StateV::Finished, events: s.events.push(EventV::Finished), ..s },
        Some(st) => {
            let counted = InterpV {
                stats: count_execution(s.stats, s.pc),
                uses: add_uses(s.uses, stmt_names(st)),
                ..s
            };
            match stmt_action(st, s.vars) {
                Err(e) => InterpV {
                    state: StateV::Error(eval_error_text(e)),
                    events: counted.events.push(EventV::Error(eval_error_text(e))),
                    ..counted
                },
                Ok(a) => {
                    let branched = if st is IfThen {
                        InterpV { stats: count_branch(counted.stats, s.pc, a is Jump), ..counted }
                    } else {
                        counted
                    };
                    apply(branched, a)
                },
            }
        },
    }
}

/// One step: nothing unless ready; after printed output, first go on to the
/// next line; then execute the current line.
pub open spec fn stepped(s: InterpV) -> InterpV {
    if !(s.state is Ready) {
        s
    } else {
        let s1 = if s.resume { advance(s) } else { s };
        if !(s1.state is Ready) {
            s1
        } else {
            run_line(s1)
        }
    }
}

/// Receiving input while waiting for it: the variable is set and the
/// program goes on with the next line.
pub open spec fn with_input(s: InterpV, name: Seq<char>, v: ValueV) -> InterpV {
    let s1 = InterpV {
        vars: s.vars.insert(name, v),
        state: StateV::Ready,
        events: s.events.push(EventV::Debug(input_received_text(name, v))),
        ..s
    };
    match next_after(s1.program, s1.pc) {
        Some(n) => InterpV {
            pc: n,
            events: s1.events.push(EventV::Debug(moving_after_input_text(n))),
            ..s1
        },
        None => InterpV { state: StateV::Finished, events: s1.events.push(EventV::Finished), ..s1 },
    }
}


// ---------------------------------------------------------------------------
// Laws of the interpreter

/// In every line's statistics, the outcomes of its condition add up to no
/// more than its executions.
pub open spec fn branch_counts_bounded(stats: Map<u32, LineStats>) -> bool {
    forall|n: u32|
        stats.contains_key(n) ==> #[trigger] stats[n].if_true_count + stats[n].if_false_count
            <= stats[n].execution_count
}

/// No execution count has reached its maximum.
pub open spec fn counts_below_max(stats: Map<u32, LineStats>) -> bool {
    forall|n: u32| stats.contains_key(n) ==> #[trigger] stats[n].execution_count < u32::MAX
}

/// Statistics exist only for lines of the program.
pub open spec fn stats_on_program(s: InterpV) -> bool {
    forall|n: u32| s.stats.contains_key(n) ==> #[trigger] stmt_at(s.program, n) is Some
}

proof fn lemma_advance_keeps(s: InterpV)
    ensures
        advance(s).stats == s.stats,
        advance(s).uses == s.uses,
        advance(s).program == s.program,
        s.events.is_prefix_of(advance(s).events),
{
    assert(s.events.is_prefix_of(s.events.push(EventV::Finished)));
    match next_after(s.program, s.pc) {
        Some(n) => assert(s.events.is_prefix_of(s.events.push(EventV::Debug(moving_text(n))))),
        None => {},
    }
}

proof fn lemma_apply_keeps(s: InterpV, a: ActionV)
    ensures
        apply(s, a).stats == s.stats,
        apply(s, a).uses == s.uses,
        apply(s, a).program == s.program,
        s.events.is_prefix_of(apply(s, a).events),
{
    lemma_advance_keeps(s);
    lemma_advance_keeps(InterpV { vars: s.vars.insert(a->Assign_0, a->Assign_1), ..s });
    match a {
        ActionV::Jump(n) => {
            assert(s.events.is_prefix_of(s.events.push(EventV::Debug(jumping_text(n)))));
            assert(s.events.is_prefix_of(s.events.push(EventV::Error(not_found_text(n)))));
        },
        ActionV::Output(t) => assert(s.events.is_prefix_of(s.events.push(EventV::Output(t)))),
        ActionV::Input(t) => assert(s.events.is_prefix_of(s.events.push(EventV::Input(t)))),
        ActionV::End => assert(s.events.is_prefix_of(s.events.push(EventV::Finished))),
        _ => {},
    }
}

/// A step keeps the program, only adds events, and changes the statistics
/// of the current line only: one more execution, and for an `IF` one more
/// outcome of its condition. So the outcomes of each condition never add up
/// to more than the executions of its line, and statistics exist only for
/// lines of the program.
pub proof fn law_step(s: InterpV)
    ensures
        stepped(s).program == s.program,
        s.events.is_prefix_of(stepped(s).events),
        branch_counts_bounded(s.stats) && counts_below_max(s.stats) ==> branch_counts_bounded(
            stepped(s).stats,
        ),
        stats_on_program(s) ==> stats_on_program(stepped(s)),
        forall|n: u32| #[trigger]
            s.stats.contains_key(n) ==> stepped(s).stats.contains_key(n) && stepped(s).stats[n].execution_count
                >= s.stats[n].execution_count,
{
    if s.state is Ready {
        let s1 = if s.resume { advance(s) } else { s };
        lemma_advance_keeps(s);
        assert(s.events.is_prefix_of(s1.events));
        if s1.state is Ready {
            match stmt_at(s1.program, s1.pc) {
                None => {
                    assert(s1.events.is_prefix_of(s1.events.push(EventV::Finished)));
                },
                Some(st) => {
                    let counted = InterpV {
                        stats: count_execution(s1.stats, s1.pc),
                        uses: add_uses(s1.uses, stmt_names(st)),
                        ..s1
                    };
                    match stmt_action(st, s1.vars) {
                        Err(e) => {
                            assert(s1.events.is_prefix_of(
                                s1.events.push(EventV::Error(eval_error_text(e))),
                            ));
                        },
                        Ok(a) => {
                            let branched = if st is IfThen {
                                InterpV {
                                    stats: count_branch(counted.stats, s1.pc, a is Jump),
                                    ..counted
                                }
                            } else {
                                counted
                            };
                            lemma_apply_keeps(branched, a);
                        },
                    }
                },
            }
        }
    }
}

/// A variable reads back what was last written to it: after a step that
/// executes `LET name = expr` on a ready interpreter, reading `name` gives
/// the value of `expr`.
pub proof fn law_assignment_reads_back(s: InterpV, name: Seq<char>, expr: ExprV, v: ValueV)
    requires
        s.state is Ready,
        !s.resume,
        stmt_at(s.program, s.pc) == Some(StmtV::Let { name, expr }),
        crate::value::eval_expr(expr, s.vars) == Ok::<ValueV, crate::value::EvalError>(v),
    ensures
        crate::value::eval_expr(ExprV::Variable { name }, stepped(s).vars) == Ok::<
            ValueV,
            crate::value::EvalError,
        >(v),
{
    let counted = InterpV {
        stats: count_execution(s.stats, s.pc),
        uses: add_uses(s.uses, stmt_names(StmtV::Let { name, expr })),
        ..s
    };
    let assigned = InterpV { vars: counted.vars.insert(name, v), ..counted };
    assert(stepped(s) == advance(assigned));
}

/// Input reads back: after input is taken into a variable, reading the
/// variable gives the value.
pub proof fn law_input_reads_back(s: InterpV, name: Seq<char>, v: ValueV)
    ensures
        crate::value::eval_expr(ExprV::Variable { name }, with_input(s, name, v).vars) == Ok::<
            ValueV,
            crate::value::EvalError,
        >(v),
{
}

/// A step that executes a line counts one use of each variable read by its
/// statement, once per occurrence.
pub proof fn law_step_counts_uses(s: InterpV, st: StmtV)
    requires
        s.state is Ready,
        !s.resume,
        stmt_at(s.program, s.pc) == Some(st),
    ensures
        stepped(s).uses == add_uses(s.uses, stmt_names(st)),
{
    let counted = InterpV {
        stats: count_execution(s.stats, s.pc),
        uses: add_uses(s.uses, stmt_names(st)),
        ..s
    };
    match crate::action::stmt_action(st, s.vars) {
        Err(_) => {},
        Ok(a) => {
            let branched = if st is IfThen {
                InterpV { stats: count_branch(counted.stats, s.pc, a is Jump), ..counted }
            } else {
                counted
            };
            lemma_apply_keeps(branched, a);
        },
    }
}

/// An `IF` whose condition holds moves to its target line when that line
/// exists; one whose condition fails moves to the next line of the program,
/// or finishes after the last. Either way the line counts one execution and
/// one outcome of its condition.
pub proof fn law_if_branches(s: InterpV, cond: ExprV, target: u32, b: bool)
    requires
        s.state is Ready,
        !s.resume,
        stmt_at(s.program, s.pc) == Some(StmtV::IfThen { conditional: cond, lineno: target }),
        crate::value::eval_expr(cond, s.vars) == Ok::<ValueV, crate::value::EvalError>(ValueV::Boolean(b)),
    ensures
        b && stmt_at(s.program, target) is Some ==> stepped(s).pc == target && stepped(s).state is Ready,
        b && stmt_at(s.program, target) is None ==> stepped(s).state == StateV::Error(not_found_text(target)),
        !b ==> match next_after(s.program, s.pc) {
            Some(n) => stepped(s).pc == n && stepped(s).state is Ready,
            None => stepped(s).state is Finished,
        },
        stats_at(s.stats, s.pc).execution_count < u32::MAX ==> stats_at(stepped(s).stats, s.pc).execution_count
            == stats_at(s.stats, s.pc).execution_count + 1,
        b && stats_at(s.stats, s.pc).if_true_count < u32::MAX ==> stats_at(stepped(s).stats, s.pc).if_true_count
            == stats_at(s.stats, s.pc).if_true_count + 1,
        b ==> stats_at(stepped(s).stats, s.pc).if_false_count == stats_at(s.stats, s.pc).if_false_count,
        !b && stats_at(s.stats, s.pc).if_false_count < u32::MAX ==> stats_at(stepped(s).stats, s.pc).if_false_count
            == stats_at(s.stats, s.pc).if_false_count + 1,
        !b ==> stats_at(stepped(s).stats, s.pc).if_true_count == stats_at(s.stats, s.pc).if_true_count,
{
    let st = StmtV::IfThen { conditional: cond, lineno: target };
    let a = if b { ActionV::Jump(target) } else { ActionV::Continue };
    assert(crate::action::stmt_action(st, s.vars) == Ok::<ActionV, crate::value::EvalError>(a));
    let counted = InterpV {
        stats: count_execution(s.stats, s.pc),
        uses: add_uses(s.uses, stmt_names(st)),
        ..s
    };
    let branched = InterpV { stats: count_branch(counted.stats, s.pc, a is Jump), ..counted };
    lemma_apply_keeps(branched, a);
    assert(stepped(s) == apply(branched, a));
}

/// A step does nothing unless the interpreter is ready.
pub proof fn law_step_needs_ready(s: InterpV)
    requires
        !(s.state is Ready),
    ensures
        stepped(s) == s,
{
}

/// Taking input keeps the program and the statistics, sets the variable,
/// and only adds events.
pub proof fn law_input(s: InterpV, name: Seq<char>, v: ValueV)
    ensures
        with_input(s, name, v).program == s.program,
        with_input(s, name, v).stats == s.stats,
        with_input(s, name, v).vars == s.vars.insert(name, v),
        s.events.is_prefix_of(with_input(s, name, v).events),
{
    let e1 = s.events.push(EventV::Debug(input_received_text(name, v)));
    assert(s.events.is_prefix_of(e1));
    assert(e1.is_prefix_of(e1.push(EventV::Finished)));
    match next_after(s.program, s.pc) {
        Some(n) => assert(e1.is_prefix_of(e1.push(EventV::Debug(moving_after_input_text(n))))),
        None => {},
    }
}

proof fn lemma_insert_line_sorted(ls: Seq<LineV>, l: LineV)
    requires
        sorted_lines(ls),
    ensures
        sorted_lines(insert_line(ls, l)),
        insert_line(ls, l).len() > 0,
        insert_line(ls, l)[0].lineno == if ls.len() > 0 && ls[0].lineno < l.lineno {
            ls[0].lineno
        } else {
            l.lineno
        },
        forall|n: u32| #[trigger] stmt_at(insert_line(ls, l), n) == if n == l.lineno {
            Some(l.statement)
        } else {
            stmt_at(ls, n)
        },
    decreases ls.len(),
{
    if ls.len() == 0 {
        let r = seq![l];
        assert forall|n: u32| #[trigger] stmt_at(r, n) == if n == l.lineno {
            Some(l.statement)
        } else {
            stmt_at(ls, n)
        } by {
            assert(r.drop_first().len() == 0);
            assert(stmt_at(r, n) == if r[0].lineno == n {
                Some(r[0].statement)
            } else {
                stmt_at(r.drop_first(), n)
            });
        }
    } else if l.lineno < ls[0].lineno {
        let r = seq![l] + ls;
        assert(r.drop_first() =~= ls);
        assert forall|n: u32| #[trigger] stmt_at(r, n) == if n == l.lineno {
            Some(l.statement)
        } else {
            stmt_at(ls, n)
        } by {
            assert(stmt_at(r, n) == if r[0].lineno == n {
                Some(r[0].statement)
            } else {
                stmt_at(r.drop_first(), n)
            });
        }
    } else if l.lineno == ls[0].lineno {
        let r = ls.update(0, l);
        assert(r.drop_first() =~= ls.drop_first());
        assert forall|n: u32| #[trigger] stmt_at(r, n) == if n == l.lineno {
            Some(l.statement)
        } else {
            stmt_at(ls, n)
        } by {
            assert(stmt_at(r, n) == if r[0].lineno == n {
                Some(r[0].statement)
            } else {
                stmt_at(r.drop_first(), n)
            });
            assert(stmt_at(ls, n) == if ls[0].lineno == n {
                Some(ls[0].statement)
            } else {
                stmt_at(ls.drop_first(), n)
            });
        }
    } else {
        let rest = ls.drop_first();
        assert(sorted_lines(rest));
        lemma_insert_line_sorted(rest, l);
        let r = seq![ls[0]] + insert_line(rest, l);
        assert(r.drop_first() =~= insert_line(rest, l));
        assert forall|i: int, j: int| 0 <= i < j < r.len() implies r[i].lineno < r[j].lineno by {
            if i == 0 {
                if rest.len() > 0 {
                    assert(ls[0].lineno < ls[1].lineno);
                }
            }
        }
        assert forall|n: u32| #[trigger] stmt_at(r, n) == if n == l.lineno {
            Some(l.statement)
        } else {
            stmt_at(ls, n)
        } by {
            assert(stmt_at(r, n) == if r[0].lineno == n {
                Some(r[0].statement)
            } else {
                stmt_at(r.drop_first(), n)
            });
            assert(stmt_at(ls, n) == if ls[0].lineno == n {
                Some(ls[0].statement)
            } else {
                stmt_at(rest, n)
            });
            assert(stmt_at(insert_line(rest, l), n) == if n == l.lineno {
                Some(l.statement)
            } else {
                stmt_at(rest, n)
            });
        }
    }
}

/// The program built from a list of lines is in order of line numbers, and
/// holds, for each number, the statement of the last line with it.
pub proof fn law_program_of(lines: Seq<LineV>)
    ensures
        sorted_lines(program_of(lines)),
        forall|n: u32| #[trigger] stmt_at(program_of(lines), n) == last_stmt(lines, n),
    decreases lines.len(),
{
    if lines.len() > 0 {
        law_program_of(lines.drop_last());
        lemma_insert_line_sorted(program_of(lines.drop_last()), lines.last());
    }
}

/// The statement of the last line with number `n`.
pub open spec fn last_stmt(lines: Seq<LineV>, n: u32) -> Option<StmtV>
    decreases lines.len(),
{
    if lines.len() == 0 {
        None
    } else if lines.last().lineno == n {
        Some(lines.last().statement)
    } else {
        last_stmt(lines.drop_last(), n)
    }
}

// ---------------------------------------------------------------------------
// The interpreter

/// Why the interpreter refused a request.
#[derive(Debug, Clone, Copy, PartialEq, Eq, Structural)]
pub enum InterpreterError {
    /// Input was provided while no `INPUT` waits for it.
    NotWaitingForInput,
}

impl InterpreterError {
    /// The message of the error.
    pub fn to_string(&self) -> (r: String)
        ensures
            r@ == "Interpreter is not waiting for input"@,
    {
        string_from_str("Interpreter is not waiting for input")
    }
}

/// A state machine that runs a program.
#[derive(Debug)]
pub struct Interpreter {
    context: Context,
    program: Vec<Line>,
    pc: u32,
    state: InterpreterState,
    events: EventQueue,
    line_stats: HashMap<u32, LineStats>,
    variable_use_counts: NameMap<u32>,
    resume: bool,
}

impl View for Interpreter {
    type V = InterpV;

    closed spec fn view(&self) -> InterpV {
        InterpV {
            vars: self.context.variables@,
            program: lines_view(self.program@),
            pc: self.pc,
            state: self.state@,
            events: self.events@,
            stats: self.line_stats@,
            uses: self.variable_use_counts@,
            resume: self.resume,
        }
    }
}

proof fn lemma_insert_line(ls: Seq<LineV>, l: LineV, i: int)
    requires
        0 <= i <= ls.len(),
        forall|j: int| 0 <= j < i ==> ls[j].lineno < l.lineno,
        i < ls.len() ==> ls[i].lineno >= l.lineno,
    ensures
        insert_line(ls, l) == if i < ls.len() && ls[i].lineno == l.lineno {
            ls.update(i, l)
        } else {
            ls.insert(i, l)
        },
    decreases i,
{
    if i == 0 {
        if ls.len() == 0 {
            assert(ls.insert(0, l) =~= seq![l]);
        } else if l.lineno < ls[0].lineno {
            assert(ls.insert(0, l) =~= seq![l] + ls);
        }
    } else {
        let rest = ls.drop_first();
        lemma_insert_line(rest, l, i - 1);
        if i < ls.len() && ls[i].lineno == l.lineno {
            assert(seq![ls[0]] + rest.update(i - 1, l) =~= ls.update(i, l));
        } else {
            assert(seq![ls[0]] + rest.insert(i - 1, l) =~= ls.insert(i, l));
        }
    }
}

/// Adds a line to a program, in order of line numbers, replacing a line with
/// the same number.
fn add_program_line(program: &mut Vec<Line>, line: Line)
    ensures
        lines_view(final(program)@) == insert_line(lines_view(old(program)@), line@),
{
    let ghost ls = lines_view(program@);
    let mut i: usize = 0;
    while i < program.len() && program[i].lineno < line.lineno
        invariant
            ls == lines_view(program@),
            i <= program.len(),
            forall|j: int| 0 <= j < i ==> #[trigger] ls[j].lineno < line.lineno,
        decreases program.len() - i,
    {
        i = i + 1;
    }
    proof {
        lemma_insert_line(ls, line@, i as int);
    }
    if i < program.len() && program[i].lineno == line.lineno {
        let ghost lv = line@;
        program.set(i, line);
        assert(lines_view(program@) =~= ls.update(i as int, lv));
    } else {
        let ghost lv = line@;
        program.insert(i, line);
        assert(lines_view(program@) =~= ls.insert(i as int, lv));
    }
}

proof fn lemma_add_uses_concat(m: Map<Seq<char>, u32>, a: Seq<Seq<char>>, b: Seq<Seq<char>>)
    ensures
        add_uses(m, a + b) == add_uses(add_uses(m, a), b),
    decreases a.len(),
{
    if a.len() > 0 {
        assert((a + b).drop_first() =~= a.drop_first() + b);
        lemma_add_uses_concat(bump(m, a[0]), a.drop_first(), b);
    } else {
        assert(a + b =~= b);
    }
}

/// Counts one use of each variable that the expression reads.
fn record_uses(counts: &mut NameMap<u32>, e: &Expr)
    ensures
        final(counts)@ == add_uses(old(counts)@, expr_names(e@)),
    decreases e,
{
    match e {
        Expr::Binary { left, right, .. } => {
            let ghost m0 = counts@;
            record_uses(counts, left);
            record_uses(counts, right);
            proof {
                lemma_add_uses_concat(m0, expr_names(left@), expr_names(right@));
                assert(expr_names(e@) == expr_names(left@) + expr_names(right@));
            }
        },
        Expr::Unary { right, .. } => record_uses(counts, right),
        Expr::Grouping { expression } => record_uses(counts, expression),
        Expr::Literal(_) => {
            assert(expr_names(e@) =~= Seq::<Seq<char>>::empty());
        },
        Expr::Variable { name } => {
            let n = match counts.get(name.as_str()) {
                Some(c) => *c,
                None => 0,
            };
            let next = if n < u32::MAX { n + 1 } else { n };
            let ghost m0 = counts@;
            counts.insert(name.clone(), next);
            assert(expr_names(e@).drop_first() =~= Seq::<Seq<char>>::empty());
            assert(add_uses(bump(m0, name@), Seq::empty()) == bump(m0, name@));
        },
    }
}

/// Counts one use of each variable that the statement reads.
fn record_stmt_uses(counts: &mut NameMap<u32>, st: &Stmt)
    ensures
        final(counts)@ == add_uses(old(counts)@, stmt_names(st@)),
{
    match st {
        Stmt::Let { expr, .. } => record_uses(counts, expr),
        Stmt::Print { expr } => record_uses(counts, expr),
        Stmt::IfThen { conditional, .. } => record_uses(counts, conditional),
        _ => {},
    }
}

fn moving_message(n: u32) -> (r: String)
    ensures
        r@ == moving_text(n),
{
    let mut s = string_from_str("Moving to line ");
    append_str(&mut s, u64_text(n as u64).as_str());
    s
}

fn jumping_message(n: u32) -> (r: String)
    ensures
        r@ == jumping_text(n),
{
    let mut s = string_from_str("Jumping to line ");
    append_str(&mut s, u64_text(n as u64).as_str());
    s
}

fn not_found_message(n: u32) -> (r: String)
    ensures
        r@ == not_found_text(n),
{
    let mut s = string_from_str("Line ");
    append_str(&mut s, u64_text(n as u64).as_str());
    append_str(&mut s, " not found");
    s
}

fn input_received_message(name: &String, v: &Value) -> (r: String)
    ensures
        r@ == input_received_text(name@, v@),
{
    let mut s = string_from_str("Input received for ");
    append_str(&mut s, name.as_str());
    append_str(&mut s, ": ");
    append_str(&mut s, v.to_string().as_str());
    s
}

fn moving_after_input_message(n: u32) -> (r: String)
    ensures
        r@ == moving_after_input_text(n),
{
    let mut s = string_from_str("Moving to line ");
    append_str(&mut s, u64_text(n as u64).as_str());
    append_str(&mut s, " after input");
    s
}

impl Interpreter {
    /// An interpreter for the given lines, at the first of them.
    pub fn new(lines: Vec<Line>) -> (r: Interpreter)
        ensures
            r@ == (InterpV {
                vars: Map::empty(),
                program: program_of(lines_view(lines@)),
                pc: if lines.len() > 0 { lines@[0].lineno } else { 0 },
                state: StateV::Ready,
                events: Seq::empty(),
                stats: Map::empty(),
                uses: Map::empty(),
                resume: false,
            }),
    {
        let pc = if lines.len() > 0 { lines[0].lineno } else { 0 };
        let ghost all = lines_view(lines@);
        let mut program: Vec<Line> = Vec::new();
        let mut rest = lines;
        let mut taken: Vec<Line> = Vec::new();
        // Take the lines in order: reverse them first, then pop from the end.
        while rest.len() > 0
            invariant
                all == lines_view(rest@) + lines_view(taken@).reverse(),
            decreases rest.len(),
        {
            let l = rest.pop().unwrap();
            taken.push(l);
            assert(all =~= lines_view(rest@) + lines_view(taken@).reverse());
        }
        assert(lines_view(program@) =~= program_of(Seq::empty()));
        let ghost mut k: int = 0;
        while taken.len() > 0
            invariant
                all.len() == k + taken.len(),
                0 <= k <= all.len(),
                lines_view(taken@).reverse() == all.skip(k),
                lines_view(program@) == program_of(all.take(k)),
            decreases taken.len(),
        {
            let ghost before = lines_view(taken@);
            let l = taken.pop().unwrap();
            proof {
                assert(before =~= lines_view(taken@).push(l@));
                assert(before.reverse() =~= seq![l@] + lines_view(taken@).reverse());
                assert(all.take(k + 1).drop_last() =~= all.take(k));
                assert(all.skip(k)[0] == l@);
                assert(all.skip(k + 1) =~= all.skip(k).drop_first());
                assert((seq![l@] + lines_view(taken@).reverse()).drop_first() =~= lines_view(taken@).reverse());
            }
            add_program_line(&mut program, l);
            proof {
                k = k + 1;
            }
        }
        assert(all.take(k) =~= all);
        let r = Interpreter {
            context: Context::new(),
            program,
            pc,
            state: InterpreterState::Ready,
            events: EventQueue::new(),
            line_stats: HashMap::new(),
            variable_use_counts: NameMap::new(),
            resume: false,
        };
        r
    }
}


/// Direct execution of a statement, outside the program: output, an
/// assignment, a request for input, or an error; other actions do nothing.
pub open spec fn executed_directly(s: InterpV, st: StmtV) -> InterpV {
    match stmt_action(st, s.vars) {
        Err(e) => InterpV {
            state: StateV::Error(eval_error_text(e)),
            events: s.events.push(EventV::Error(eval_error_text(e))),
            ..s
        },
        Ok(ActionV::Output(t)) => InterpV { events: s.events.push(EventV::Output(t)), ..s },
        Ok(ActionV::Assign(name, v)) => InterpV { vars: s.vars.insert(name, v), ..s },
        Ok(ActionV::Input(name)) => InterpV {
            state: StateV::WaitingForInput(name),
            events: s.events.push(EventV::Input(name)),
            ..s
        },
        Ok(_) => s,
    }
}

/// A well-formed interpreter: its program is in order of line numbers, and
/// output is pending only on a line of the program.
pub open spec fn well_formed(s: InterpV) -> bool {
    &&& sorted_lines(s.program)
    &&& s.resume ==> stmt_at(s.program, s.pc) is Some
}

proof fn lemma_next_after_is_line(ls: Seq<LineV>, pc: u32)
    ensures
        next_after(ls, pc) matches Some(n) ==> stmt_at(ls, n) is Some,
    decreases ls.len(),
{
    if ls.len() > 0 && ls[0].lineno <= pc {
        lemma_next_after_is_line(ls.drop_first(), pc);
    }
}

/// An interpreter that `new` builds is well formed: its program is that of
/// its lines, and no output is pending.
pub proof fn law_new_well_formed(lines: Seq<LineV>, s: InterpV)
    requires
        s.program == program_of(lines),
        !s.resume,
    ensures
        well_formed(s),
{
    law_program_of(lines);
}

/// Every operation of the interpreter keeps it well formed: a step, going on
/// to the next line, taking input, executing a statement directly, clearing
/// the statistics and taking the events.
pub proof fn law_operations_keep_well_formed(s: InterpV, name: Seq<char>, v: ValueV, st: StmtV)
    requires
        well_formed(s),
    ensures
        well_formed(stepped(s)),
        well_formed(advance(s)),
        well_formed(with_input(s, name, v)),
        well_formed(executed_directly(s, st)),
        well_formed(InterpV { stats: Map::empty(), uses: Map::empty(), ..s }),
        well_formed(InterpV { events: Seq::empty(), ..s }),
{
    lemma_next_after_is_line(s.program, s.pc);
    law_step(s);
    if s.state is Ready {
        let s1 = if s.resume { advance(s) } else { s };
        if s1.state is Ready {
            match stmt_at(s1.program, s1.pc) {
                None => {},
                Some(stmt) => {
                    let counted = InterpV {
                        stats: count_execution(s1.stats, s1.pc),
                        uses: add_uses(s1.uses, stmt_names(stmt)),
                        ..s1
                    };
                    match stmt_action(stmt, s1.vars) {
                        Err(_) => {},
                        Ok(a) => {
                            let branched = if stmt is IfThen {
                                InterpV { stats: count_branch(counted.stats, s1.pc, a is Jump), ..counted }
                            } else {
                                counted
                            };
                            lemma_next_after_is_line(branched.program, branched.pc);
                            let assigned = InterpV {
                                vars: branched.vars.insert(a->Assign_0, a->Assign_1),
                                ..branched
                            };
                            lemma_next_after_is_line(assigned.program, assigned.pc);
                            assert(well_formed(apply(branched, a)));
                        },
                    }
                },
            }
        }
    }
}

impl Interpreter {
    /// The variables.
    pub fn context(&self) -> (r: &Context)
        ensures
            r.variables@ == self@.vars,
    {
        &self.context
    }

    /// The lines of the program, in order of line numbers.
    pub fn program(&self) -> (r: &Vec<Line>)
        ensures
            lines_view(r@) == self@.program,
    {
        &self.program
    }

    /// The number of the current line.
    pub fn pc(&self) -> (r: &u32)
        ensures
            *r == self@.pc,
    {
        &self.pc
    }

    /// The state.
    pub fn state(&self) -> (r: &InterpreterState)
        ensures
            r@ == self@.state,
    {
        &self.state
    }

    /// Statistics by line number.
    pub fn line_stats(&self) -> (r: &HashMap<u32, LineStats>)
        ensures
            r@ == self@.stats,
    {
        &self.line_stats
    }

    /// How many times each variable was read by executed statements.
    pub fn variable_use_counts(&self) -> (r: &NameMap<u32>)
        ensures
            r@ == self@.uses,
    {
        &self.variable_use_counts
    }

    /// Takes all pending events, oldest first.
    pub fn take_events(&mut self) -> (r: Vec<InterpreterEvent>)
        ensures
            events_view(r@) == old(self)@.events,
            final(self)@ == (InterpV { events: Seq::empty(), ..old(self)@ }),
    {
        self.events.take_events()
    }

    /// Whether there are pending events.
    pub fn has_events(&self) -> (b: bool)
        ensures
            b == (self@.events.len() > 0),
    {
        self.events.has_events()
    }

    /// Goes on to the next line (after output, without executing it).
    pub fn next(&mut self)
        ensures
            final(self)@ == advance(old(self)@),
    {
        self.advance();
    }

    /// Clears all statistics.
    pub fn reset_statistics(&mut self)
        ensures
            final(self)@ == (InterpV { stats: Map::empty(), uses: Map::empty(), ..old(self)@ }),
    {
        self.line_stats.clear();
        self.variable_use_counts.clear();
    }

    fn is_ready(&self) -> (b: bool)
        ensures
            b == (self@.state is Ready),
    {
        match self.state {
            InterpreterState::Ready => true,
            _ => false,
        }
    }

    /// The index of the first line with number `n`.
    fn find_line(&self, n: u32) -> (r: Option<usize>)
        ensures
            match r {
                Some(i) => i < self.program.len() && stmt_at(self@.program, n) == Some(
                    self.program@[i as int].statement@,
                ),
                None => stmt_at(self@.program, n) is None,
            },
    {
        let ghost ls = lines_view(self.program@);
        let mut i: usize = 0;
        assert(ls.skip(0) =~= ls);
        while i < self.program.len()
            invariant
                ls == lines_view(self.program@),
                i <= self.program.len(),
                stmt_at(ls, n) == stmt_at(ls.skip(i as int), n),
            decreases self.program.len() - i,
        {
            assert(ls.skip(i as int)[0] == ls[i as int]);
            if self.program[i].lineno == n {
                return Some(i);
            }
            assert(ls.skip(i as int).drop_first() =~= ls.skip(i + 1));
            i = i + 1;
        }
        None
    }

    /// The number of the first line, in program order, after the current one.
    fn next_line(&self) -> (r: Option<u32>)
        ensures
            r == next_after(self@.program, self@.pc),
    {
        let ghost ls = lines_view(self.program@);
        let mut i: usize = 0;
        assert(ls.skip(0) =~= ls);
        while i < self.program.len()
            invariant
                ls == lines_view(self.program@),
                i <= self.program.len(),
                next_after(ls, self.pc) == next_after(ls.skip(i as int), self.pc),
            decreases self.program.len() - i,
        {
            assert(ls.skip(i as int)[0] == ls[i as int]);
            if self.program[i].lineno > self.pc {
                return Some(self.program[i].lineno);
            }
            assert(ls.skip(i as int).drop_first() =~= ls.skip(i + 1));
            i = i + 1;
        }
        None
    }

    /// Goes on with the next line, or finishes.
    fn advance(&mut self)
        ensures
            final(self)@ == advance(old(self)@),
    {
        self.resume = false;
        match self.next_line() {
            Some(n) => {
                self.pc = n;
                self.events.push(InterpreterEvent::Debug(moving_message(n)));
            },
            None => {
                self.state = InterpreterState::Finished;
                self.events.push(InterpreterEvent::Finished);
            },
        }
    }

    /// Carries out an action.
    fn handle_action(&mut self, action: Action)
        ensures
            final(self)@ == apply(old(self)@, action@),
    {
        match action {
            Action::Continue => self.advance(),
            Action::Jump(lineno) => {
                if self.find_line(lineno).is_some() {
                    self.pc = lineno;
                    self.events.push(InterpreterEvent::Debug(jumping_message(lineno)));
                } else {
                    let error = not_found_message(lineno);
                    self.state = InterpreterState::Error(error.clone());
                    self.events.push(InterpreterEvent::Error(error));
                }
            },
            Action::Output(text) => {
                self.events.push(InterpreterEvent::Output(text));
                self.resume = true;
            },
            Action::Input(name) => {
                self.state = InterpreterState::WaitingForInput(name.clone());
                self.events.push(InterpreterEvent::Input(name));
            },
            Action::Assign(name, value) => {
                self.context.variables.insert(name, value);
                self.advance();
            },
            Action::End => {
                self.state = InterpreterState::Finished;
                self.events.push(InterpreterEvent::Finished);
            },
        }
    }

    /// Counts one more execution of line `n`.
    fn record_execution(&mut self, n: u32)
        ensures
            final(self)@ == (InterpV { stats: count_execution(old(self)@.stats, n), ..old(self)@ }),
    {
        let mut st = match self.line_stats.get(&n) {
            Some(s) => *s,
            None => LineStats::default(),
        };
        if st.execution_count < u32::MAX {
            st.execution_count = st.execution_count + 1;
        }
        self.line_stats.insert(n, st);
    }

    /// Counts the outcome of the condition of the `IF` on line `n`.
    fn record_branch(&mut self, n: u32, taken: bool)
        ensures
            final(self)@ == (InterpV { stats: count_branch(old(self)@.stats, n, taken), ..old(self)@ }),
    {
        let mut st = match self.line_stats.get(&n) {
            Some(s) => *s,
            None => LineStats::default(),
        };
        if taken {
            if st.if_true_count < u32::MAX {
                st.if_true_count = st.if_true_count + 1;
            }
        } else {
            if st.if_false_count < u32::MAX {
                st.if_false_count = st.if_false_count + 1;
            }
        }
        self.line_stats.insert(n, st);
    }

    /// Executes one step of the program: nothing unless ready; after a
    /// line printed output, the step first goes on to the next line; then it
    /// executes the statement of the current line.
    pub fn step(&mut self)
        ensures
            final(self)@ == stepped(old(self)@),
    {
        if !self.is_ready() {
            return;
        }
        if self.resume {
            self.advance();
            if !self.is_ready() {
                return;
            }
        }
        let pc = self.pc;
        match self.find_line(pc) {
            None => {
                self.state = InterpreterState::Finished;
                self.events.push(InterpreterEvent::Finished);
            },
            Some(i) => {
                assert(lines_view(self.program@)[i as int] == self.program@[i as int]@);
                self.record_execution(pc);
                assert(lines_view(self.program@)[i as int] == self.program@[i as int]@);
                record_stmt_uses(&mut self.variable_use_counts, &self.program[i].statement);
                let is_if = match &self.program[i].statement {
                    Stmt::IfThen { .. } => true,
                    _ => false,
                };
                match self.program[i].statement.execute(&self.context) {
                    Ok(action) => {
                        if is_if {
                            let taken = match &action {
                                Action::Jump(_) => true,
                                _ => false,
                            };
                            self.record_branch(pc, taken);
                        }
                        self.handle_action(action);
                    },
                    Err(err) => {
                        let message = err.to_string();
                        self.state = InterpreterState::Error(message.clone());
                        self.events.push(InterpreterEvent::Error(message));
                    },
                }
            },
        }
    }

    /// Provides the input that the interpreter waits for, and goes on with
    /// the next line.
    pub fn provide_input(&mut self, value: Value) -> (r: Result<(), InterpreterError>)
        ensures
            match old(self)@.state {
                StateV::WaitingForInput(name) => r is Ok && final(self)@ == with_input(
                    old(self)@,
                    name,
                    value@,
                ),
                _ => r == Err::<(), InterpreterError>(InterpreterError::NotWaitingForInput)
                    && final(self)@ == old(self)@,
            },
    {
        let var_name = match &self.state {
            InterpreterState::WaitingForInput(name) => name.clone(),
            _ => return Err(InterpreterError::NotWaitingForInput),
        };
        let message = input_received_message(&var_name, &value);
        self.context.variables.insert(var_name, value);
        self.state = InterpreterState::Ready;
        self.events.push(InterpreterEvent::Debug(message));
        match self.next_line() {
            Some(n) => {
                self.pc = n;
                self.events.push(InterpreterEvent::Debug(moving_after_input_message(n)));
            },
            None => {
                self.state = InterpreterState::Finished;
                self.events.push(InterpreterEvent::Finished);
            },
        }
        Ok(())
    }

    /// Executes a statement directly, outside the program: the current line
    /// and the statistics stay as they are.
    pub fn execute(&mut self, stmt: Stmt)
        ensures
            final(self)@ == executed_directly(old(self)@, stmt@),
    {
        match stmt.execute(&self.context) {
            Err(err) => {
                let message = err.to_string();
                self.state = InterpreterState::Error(message.clone());
                self.events.push(InterpreterEvent::Error(message));
            },
            Ok(Action::Output(text)) => {
                self.events.push(InterpreterEvent::Output(text));
            },
            Ok(Action::Assign(name, value)) => {
                self.context.variables.insert(name, value);
            },
            Ok(Action::Input(name)) => {
                self.state = InterpreterState::WaitingForInput(name.clone());
                self.events.push(InterpreterEvent::Input(name));
            },
            Ok(_) => {},
        }
    }
}

impl Default for Interpreter {
    fn default() -> (r: Interpreter)
        ensures
            r@ == (InterpV {
                vars: Map::empty(),
                program: Seq::empty(),
                pc: 0,
                state: StateV::Ready,
                events: Seq::empty(),
                stats: Map::empty(),
                uses: Map::empty(),
                resume: false,
            }),
    {
        let r = Interpreter::new(Vec::new());
        assert(lines_view(Seq::<Line>::empty()) =~= Seq::<LineV>::empty());
        r
    }
}

} // verus!
