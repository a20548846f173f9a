//! An editing session for a user interface: program lines are added,
//! replaced and deleted as text, statements run directly, and the program
//! runs step by step. Results come back as plain records.
use vstd::prelude::*;
use crate::ast::{Line, LineV, Stmt, StmtV};
use crate::display::{line_tree, use_count};
use crate::event::{EventV, InterpreterEvent, events_view};
use crate::interpreter::{
    InterpV, Interpreter as Machine, InterpreterState as MachineState, StateV, executed_directly,
    lines_view, program_of, stats_at, stepped, with_input,
};
use crate::lexer::{LexicalError, errors_of, lex, lex_fits, tokenize, tokens_of};
use crate::parser::{ParseError, ParseErrorV, Parser, p_line, p_statement};
use crate::text::{all_digits, digits_value, append_str, string_from_str, u64_text, chars_of, string_of_range};
use crate::value::{Value, ValueV, parse_value, trim, value_text};

verus! {

/// A line of the program with its text and its syntax tree.
#[derive(Debug, Clone)]
pub struct ProgramLine {
    pub lineno: u32,
    pub text: String,
    pub syntax_tree: String,
}

/// A variable with its value as text and how many times it was read.
#[derive(Debug, Clone)]
pub struct Variable {
    pub name: String,
    pub value: String,
    pub use_count: u32,
}

/// The statistics of a line.
#[derive(Debug, Clone)]
pub struct LineStats {
    pub lineno: u32,
    pub execution_count: u32,
    pub if_true_count: u32,
    pub if_false_count: u32,
}

/// The state of the interpreter, without its details.
#[derive(Debug, Clone, Copy, PartialEq, Eq, Structural)]
pub enum InterpreterState {
    Ready,
    /// The variable is given by `get_waiting_for_input`.
    WaitingForInput,
    Finished,
    /// The message is given by `get_error_message`.
    Error,
}

/// The events of an execution, sorted by kind.
#[derive(Debug, Clone)]
pub struct EventBatch {
    pub outputs: Vec<String>,
    pub inputs: Vec<String>,
    pub errors: Vec<String>,
    pub debug_messages: Vec<String>,
    pub finished: bool,
}

/// Whether an edit added (or replaced) a line or deleted one.
#[derive(Debug, Clone, Copy, PartialEq, Eq, Structural)]
pub enum LineOpType {
    Added,
    Deleted,
}

/// The outcome of an edit.
#[derive(Debug, Clone)]
pub struct LineOpResult {
    pub op_type: LineOpType,
    pub lineno: u32,
}

/// Why a line of text is not a line of the language.
#[derive(Debug)]
pub enum LineError {
    /// The text has lexical errors.
    Tokenization(Vec<LexicalError>),
    /// The tokens are not a line (or a statement).
    Parse(ParseError),
}

/// Why the session refused a request.
#[derive(Debug)]
pub enum SessionError {
    /// A line of source text is not valid.
    Line(LineError),
    /// An edited line is not valid.
    InvalidLine(LineError),
    /// Only `LET`, `PRINT` and `INPUT` run directly.
    NotAllowed(Stmt),
    /// The program cannot be edited while it runs.
    CannotEdit,
    /// There is no line with this number.
    LineNotFound(u32),
    /// Input was provided while no `INPUT` waits for it.
    InputRefused,
}

/// The mathematical value of an event batch.
#[verifier::ext_equal]
pub struct BatchV {
    pub outputs: Seq<Seq<char>>,
    pub inputs: Seq<Seq<char>>,
    pub errors: Seq<Seq<char>>,
    pub debug_messages: Seq<Seq<char>>,
    pub finished: bool,
}

/// The texts of a list of strings.
pub open spec fn texts(v: Seq<String>) -> Seq<Seq<char>> {
    v.map_values(|s: String| s@)
}

impl View for EventBatch {
    type V = BatchV;

    open spec fn view(&self) -> BatchV {
        BatchV {
            outputs: texts(self.outputs@),
            inputs: texts(self.inputs@),
            errors: texts(self.errors@),
            debug_messages: texts(self.debug_messages@),
            finished: self.finished,
        }
    }
}

/// A batch without events.
pub open spec fn empty_batch() -> BatchV {
    BatchV {
        outputs: Seq::empty(),
        inputs: Seq::empty(),
        errors: Seq::empty(),
        debug_messages: Seq::empty(),
        finished: false,
    }
}

/// A batch with one more event.
pub open spec fn add_event(b: BatchV, e: EventV) -> BatchV {
    match e {
        EventV::Output(t) => BatchV { outputs: b.outputs.push(t), ..b },
        EventV::Input(t) => BatchV { inputs: b.inputs.push(t), ..b },
        EventV::Error(t) => BatchV { errors: b.errors.push(t), ..b },
        EventV::Debug(t) => BatchV { debug_messages: b.debug_messages.push(t), ..b },
        EventV::Finished => BatchV { finished: true, ..b },
    }
}

/// The batch of a list of events, sorted by kind, each kind in order.
pub open spec fn batch_of(es: Seq<EventV>) -> BatchV
    decreases es.len(),
{
    if es.len() == 0 {
        empty_batch()
    } else {
        add_event(batch_of(es.drop_last()), es.last())
    }
}

/// Two batches, one after the other.
pub open spec fn merged(a: BatchV, b: BatchV) -> BatchV {
    BatchV {
        outputs: a.outputs + b.outputs,
        inputs: a.inputs + b.inputs,
        errors: a.errors + b.errors,
        debug_messages: a.debug_messages + b.debug_messages,
        finished: a.finished || b.finished,
    }
}

/// The mathematical value of a program line of the session.
pub struct EntryV {
    pub line: LineV,
    pub text: Seq<char>,
    pub tree: Seq<char>,
}

/// The mathematical value of a session.
pub struct SessionV {
    /// The interpreter that runs the program.
    pub inner: InterpV,
    /// The lines of the program, in order of line numbers.
    pub entries: Seq<EntryV>,
    /// Whether execution has started since the program was last built.
    pub started: bool,
}

/// The plain state of an interpreter state.
pub open spec fn plain_state(s: StateV) -> InterpreterState {
    match s {
        StateV::Ready => InterpreterState::Ready,
        StateV::WaitingForInput(_) => InterpreterState::WaitingForInput,
        StateV::Finished => InterpreterState::Finished,
        StateV::Error(_) => InterpreterState::Error,
    }
}

/// Editing is allowed before execution starts and after it ends.
pub open spec fn editable(s: SessionV) -> bool {
    match s.inner.state {
        StateV::Finished => true,
        StateV::Error(_) => true,
        StateV::Ready => !s.started,
        StateV::WaitingForInput(_) => false,
    }
}

/// The lines of the entries.
pub open spec fn entry_lines(es: Seq<EntryV>) -> Seq<LineV> {
    es.map_values(|e: EntryV| e.line)
}

/// An interpreter freshly built for the lines of the entries.
pub open spec fn fresh(es: Seq<EntryV>) -> InterpV {
    InterpV {
        vars: Map::empty(),
        program: program_of(entry_lines(es)),
        pc: if es.len() > 0 { es[0].line.lineno } else { 0 },
        state: StateV::Ready,
        events: Seq::empty(),
        stats: Map::empty(),
        uses: Map::empty(),
        resume: false,
    }
}

/// The session with its interpreter built afresh for its program.
pub open spec fn rebuilt(s: SessionV) -> SessionV {
    SessionV { inner: fresh(s.entries), started: false, ..s }
}

/// The syntax tree of a line with the statistics of an interpreter.
pub open spec fn tree_for(inner: InterpV, l: LineV) -> Seq<char> {
    let st = stats_at(inner.stats, l.lineno);
    line_tree(
        l,
        st.execution_count,
        (st.if_true_count, st.if_false_count),
        match l.statement {
            StmtV::Let { name, .. } => use_count(inner.uses, name),
            _ => 0,
        },
    )
}

/// The entries with one added, in order of line numbers, replacing an entry
/// with the same line number.
pub open spec fn insert_entry(es: Seq<EntryV>, e: EntryV) -> Seq<EntryV>
    decreases es.len(),
{
    if es.len() == 0 {
        seq![e]
    } else if e.line.lineno < es[0].line.lineno {
        seq![e] + es
    } else if e.line.lineno == es[0].line.lineno {
        es.update(0, e)
    } else {
        seq![es[0]] + insert_entry(es.drop_first(), e)
    }
}

/// The first entry with line number `n`.
pub open spec fn entry_of(es: Seq<EntryV>, n: u32) -> Option<EntryV>
    decreases es.len(),
{
    if es.len() == 0 {
        None
    } else if es[0].line.lineno == n {
        Some(es[0])
    } else {
        entry_of(es.drop_first(), n)
    }
}

/// The entries without the first one with line number `n`.
pub open spec fn without_line(es: Seq<EntryV>, n: u32) -> Seq<EntryV>
    decreases es.len(),
{
    if es.len() == 0 {
        es
    } else if es[0].line.lineno == n {
        es.drop_first()
    } else {
        seq![es[0]] + without_line(es.drop_first(), n)
    }
}

/// The number that a text is, as an unsigned 32-bit integer: an optional
/// `+`, then decimal digits only.
pub open spec fn parse_u32(t: Seq<char>) -> Option<u32> {
    let digits = if t.len() > 0 && t[0] == '+' { t.drop_first() } else { t };
    if digits.len() > 0 && all_digits(digits) && digits_value(digits) <= u32::MAX {
        Some(digits_value(digits) as u32)
    } else {
        None
    }
}

/// What a text is, read as one line or statement.
pub enum ParsedV<T> {
    /// The text has lexical errors.
    Lexical,
    /// The tokens are not what was asked for.
    Syntax(ParseErrorV),
    Parsed(T),
}

/// A text read as a numbered line.
pub open spec fn parse_text_line(text: Seq<char>) -> ParsedV<LineV> {
    if errors_of(lex(text)).len() > 0 {
        ParsedV::Lexical
    } else {
        match p_line(tokens_of(lex(text))).0 {
            Ok(l) => ParsedV::Parsed(l),
            Err(e) => ParsedV::Syntax(e),
        }
    }
}

/// A text read as a statement.
pub open spec fn parse_text_stmt(text: Seq<char>) -> ParsedV<StmtV> {
    if errors_of(lex(text)).len() > 0 {
        ParsedV::Lexical
    } else {
        match p_statement(tokens_of(lex(text))).0 {
            Ok(s) => ParsedV::Parsed(s),
            Err(e) => ParsedV::Syntax(e),
        }
    }
}

/// Whether a statement may run directly.
pub open spec fn direct_allowed(s: StmtV) -> bool {
    s is Let || s is Print || s is Input
}

/// The interpreter with its events taken.
pub open spec fn drained(i: InterpV) -> InterpV {
    InterpV { events: Seq::empty(), ..i }
}

/// The index just past the end of the line that starts at `i`.
pub open spec fn line_end(s: Seq<char>, i: int) -> int
    decreases s.len() - i,
{
    if i >= s.len() || s[i] == '\n' {
        i
    } else {
        line_end(s, i + 1)
    }
}

/// The lines of a text from index `i`: split at each `\n`, a `\r` before
/// the `\n` dropped, and no empty line after a final `\n`.
pub open spec fn lines_from(s: Seq<char>, i: int) -> Seq<Seq<char>>
    decreases s.len() - i,
{
    if i < 0 || i >= s.len() {
        Seq::empty()
    } else {
        let e = line_end(s, i);
        let raw = s.subrange(i, e);
        let piece = if e < s.len() && raw.len() > 0 && raw.last() == '\r' {
            raw.drop_last()
        } else {
            raw
        };
        proof {
            lemma_line_end(s, i);
        }
        if e < s.len() {
            seq![piece] + lines_from(s, e + 1)
        } else {
            seq![piece]
        }
    }
}

/// A line ends at the first `\n` from its start, or at the end of the text.
pub proof fn lemma_line_end(s: Seq<char>, i: int)
    requires
        0 <= i <= s.len(),
    ensures
        i <= line_end(s, i) <= s.len(),
        line_end(s, i) < s.len() ==> s[line_end(s, i)] == '\n',
        forall|k: int| i <= k < line_end(s, i) ==> s[k] != '\n',
    decreases s.len() - i,
{
    if i < s.len() && s[i] != '\n' {
        lemma_line_end(s, i + 1);
    }
}

/// The integers of each line that a load reads fit in `u32`: the lines up
/// to the first one that is not a valid line, blank lines aside.
pub open spec fn load_fits(lines: Seq<Seq<char>>) -> bool
    decreases lines.len(),
{
    if lines.len() == 0 {
        true
    } else if trim(lines[0]).len() == 0 {
        load_fits(lines.drop_first())
    } else {
        lex_fits(lines[0]) && (parse_text_line(lines[0]) is Parsed ==> load_fits(lines.drop_first()))
    }
}

/// Loading lines of source text into the entries, from an interpreter with
/// no statistics: blank lines are skipped; the first invalid line stops the
/// load with its error.
pub open spec fn load_lines(es: Seq<EntryV>, lines: Seq<Seq<char>>) -> (Seq<EntryV>, bool)
    decreases lines.len(),
{
    if lines.len() == 0 {
        (es, true)
    } else if trim(lines[0]).len() == 0 {
        load_lines(es, lines.drop_first())
    } else {
        match parse_text_line(lines[0]) {
            ParsedV::Parsed(l) => load_lines(
                insert_entry(es, EntryV { line: l, text: lines[0], tree: tree_for(fresh(Seq::empty()), l) }),
                lines.drop_first(),
            ),
            _ => (es, false),
        }
    }
}


// ---------------------------------------------------------------------------
// Laws of the session

/// The line numbers of the entries increase strictly.
pub open spec fn sorted_entries(es: Seq<EntryV>) -> bool {
    forall|i: int, j: int| 0 <= i < j < es.len() ==> es[i].line.lineno < es[j].line.lineno
}

proof fn lemma_entry_of_below(es: Seq<EntryV>, n: u32)
    requires
        sorted_entries(es),
        es.len() > 0 ==> n < es[0].line.lineno,
    ensures
        entry_of(es, n) is None,
    decreases es.len(),
{
    if es.len() > 0 {
        let rest = es.drop_first();
        assert(sorted_entries(rest));
        if rest.len() > 0 {
            assert(es[0].line.lineno < es[1].line.lineno);
        }
        lemma_entry_of_below(rest, n);
    }
}

/// Adding an entry keeps the entries in order; the entry is then found
/// under its line number, and every other line number finds what it found
/// before.
pub proof fn law_insert_entry(es: Seq<EntryV>, e: EntryV)
    requires
        sorted_entries(es),
    ensures
        sorted_entries(insert_entry(es, e)),
        insert_entry(es, e).len() > 0,
        insert_entry(es, e)[0].line.lineno == if es.len() > 0 && es[0].line.lineno < e.line.lineno {
            es[0].line.lineno
        } else {
            e.line.lineno
        },
        entry_of(insert_entry(es, e), e.line.lineno) == Some(e),
        forall|n: u32| n != e.line.lineno ==> #[trigger] entry_of(insert_entry(es, e), n) == entry_of(es, n),
    decreases es.len(),
{
    if es.len() == 0 {
        assert forall|n: u32| n != e.line.lineno implies #[trigger] entry_of(insert_entry(es, e), n)
            == entry_of(es, n) by {
            let r = seq![e];
            assert(insert_entry(es, e) == r);
            assert(r.drop_first() =~= Seq::<EntryV>::empty());
            assert(entry_of(r, n) == entry_of(r.drop_first(), n));
        }
    } else if e.line.lineno < es[0].line.lineno {
        let r = seq![e] + es;
        assert(r.drop_first() =~= es);
    } else if e.line.lineno == es[0].line.lineno {
        let r = es.update(0, e);
        assert(r.drop_first() =~= es.drop_first());
    } else {
        let rest = es.drop_first();
        assert(sorted_entries(rest));
        law_insert_entry(rest, e);
        let r = seq![es[0]] + insert_entry(rest, e);
        assert(r.drop_first() =~= insert_entry(rest, e));
        assert forall|i: int, j: int| 0 <= i < j < r.len() implies r[i].line.lineno
            < r[j].line.lineno by {
            if i == 0 && rest.len() > 0 {
                assert(es[0].line.lineno < es[1].line.lineno);
            }
        }
        assert forall|n: u32| n != e.line.lineno implies #[trigger] entry_of(r, n) == entry_of(es, n) by {
            assert(entry_of(insert_entry(rest, e), n) == entry_of(rest, n));
        }
    }
}

/// Deleting the entry with line number `n` keeps the entries in order; `n`
/// then finds nothing, and every other line number finds what it found
/// before.
pub proof fn law_without_line(es: Seq<EntryV>, n: u32)
    requires
        sorted_entries(es),
    ensures
        sorted_entries(without_line(es, n)),
        entry_of(without_line(es, n), n) is None,
        forall|m: u32| m != n ==> #[trigger] entry_of(without_line(es, n), m) == entry_of(es, m),
    decreases es.len(),
{
    if es.len() > 0 {
        let rest = es.drop_first();
        assert(sorted_entries(rest));
        if es[0].line.lineno == n {
            if rest.len() > 0 {
                assert(es[0].line.lineno < es[1].line.lineno);
            }
            lemma_entry_of_below(rest, n);
        } else {
            law_without_line(rest, n);
            let r = seq![es[0]] + without_line(rest, n);
            assert(r.drop_first() =~= without_line(rest, n));
            assert forall|i: int, j: int| 0 <= i < j < r.len() implies r[i].line.lineno
                < r[j].line.lineno by {
                if i == 0 {
                    assert(r[j] == without_line(rest, n)[j - 1]);
                    lemma_without_line_within(rest, n, j - 1);
                }
            }
            assert forall|m: u32| m != n implies #[trigger] entry_of(r, m) == entry_of(es, m) by {
                assert(entry_of(without_line(rest, n), m) == entry_of(rest, m));
            }
        }
    }
}

proof fn lemma_without_line_within(es: Seq<EntryV>, n: u32, j: int)
    requires
        0 <= j < without_line(es, n).len(),
    ensures
        exists|k: int| 0 <= k < es.len() && es[k] == #[trigger] without_line(es, n)[j],
    decreases es.len(),
{
    if es.len() > 0 {
        if es[0].line.lineno == n {
            assert(es[j + 1] == without_line(es, n)[j]);
        } else if j == 0 {
            assert(es[0] == without_line(es, n)[0]);
        } else {
            lemma_without_line_within(es.drop_first(), n, j - 1);
            let k = choose|k: int|
                0 <= k < es.drop_first().len() && es.drop_first()[k] == without_line(
                    es.drop_first(),
                    n,
                )[j - 1];
            assert(es[k + 1] == without_line(es, n)[j]);
        }
    }
}

proof fn lemma_program_of_sorted(ls: Seq<LineV>)
    requires
        crate::interpreter::sorted_lines(ls),
    ensures
        program_of(ls) == ls,
    decreases ls.len(),
{
    if ls.len() > 0 {
        let init = ls.drop_last();
        assert(crate::interpreter::sorted_lines(init));
        lemma_program_of_sorted(init);
        lemma_insert_last(init, ls.last());
        assert(init.push(ls.last()) =~= ls);
    }
}

proof fn lemma_insert_last(ls: Seq<LineV>, l: LineV)
    requires
        forall|i: int| 0 <= i < ls.len() ==> #[trigger] ls[i].lineno < l.lineno,
    ensures
        crate::interpreter::insert_line(ls, l) == ls.push(l),
    decreases ls.len(),
{
    if ls.len() > 0 {
        assert(ls[0].lineno < l.lineno);
        let rest = ls.drop_first();
        assert forall|i: int| 0 <= i < rest.len() implies #[trigger] rest[i].lineno < l.lineno by {
            assert(rest[i] == ls[i + 1]);
        }
        lemma_insert_last(rest, l);
        assert(seq![ls[0]] + rest.push(l) =~= ls.push(l));
    } else {
        assert(seq![l] =~= ls.push(l));
    }
}

/// The interpreter built for entries in order runs exactly their lines, in
/// that order, starting at the first.
pub proof fn law_fresh_runs_the_entries(es: Seq<EntryV>)
    requires
        sorted_entries(es),
    ensures
        fresh(es).program == entry_lines(es),
        es.len() > 0 ==> fresh(es).pc == es[0].line.lineno,
{
    let ls = entry_lines(es);
    assert forall|i: int, j: int| 0 <= i < j < ls.len() implies ls[i].lineno < ls[j].lineno by {
        assert(ls[i] == es[i].line && ls[j] == es[j].line);
    }
    lemma_program_of_sorted(ls);
}

/// The events of two runs, batched one after the other, are the batch of
/// all the events.
pub proof fn law_batch_merge(a: Seq<EventV>, b: Seq<EventV>)
    ensures
        batch_of(a + b) == merged(batch_of(a), batch_of(b)),
    decreases b.len(),
{
    if b.len() == 0 {
        assert(a + b =~= a);
        assert(merged(batch_of(a), batch_of(b)) =~= batch_of(a));
    } else {
        law_batch_merge(a, b.drop_last());
        assert((a + b).drop_last() =~= a + b.drop_last());
        assert((a + b).last() == b.last());
        assert(batch_of(a + b) =~= merged(batch_of(a), batch_of(b)));
    }
}

/// After the program is built afresh (by an edit, a reset or a load), it
/// may be edited, and its interpreter is ready, with no variables and no
/// statistics.
pub proof fn law_rebuilt_is_fresh(s: SessionV)
    ensures
        editable(rebuilt(s)),
        rebuilt(s).inner.state is Ready,
        rebuilt(s).inner.vars == Map::<Seq<char>, ValueV>::empty(),
        rebuilt(s).inner.stats == Map::<u32, crate::interpreter::LineStats>::empty(),
        rebuilt(s).inner.uses == Map::<Seq<char>, u32>::empty(),
        rebuilt(s).entries == s.entries,
{
}

/// Once a step has run, the program may be edited only after it finished
/// or failed: not while it is ready to go on, nor while it waits for input.
pub proof fn law_running_blocks_editing(s: SessionV)
    ensures
        editable(SessionV { inner: drained(stepped(s.inner)), started: true, ..s }) == (
        stepped(s.inner).state is Finished || stepped(s.inner).state is Error),
{
}

/// Loading source text keeps the entries in order.
pub proof fn law_load_sorted(es: Seq<EntryV>, lines: Seq<Seq<char>>)
    requires
        sorted_entries(es),
    ensures
        sorted_entries(load_lines(es, lines).0),
    decreases lines.len(),
{
    if lines.len() > 0 {
        if trim(lines[0]).len() == 0 {
            law_load_sorted(es, lines.drop_first());
        } else {
            match parse_text_line(lines[0]) {
                ParsedV::Parsed(l) => {
                    let e = EntryV { line: l, text: lines[0], tree: tree_for(fresh(Seq::empty()), l) };
                    law_insert_entry(es, e);
                    law_load_sorted(insert_entry(es, e), lines.drop_first());
                },
                _ => {},
            }
        }
    }
}

/// A line of the program with its text and its syntax tree.
#[derive(Debug)]
pub struct ProgramEntry {
    pub line: Line,
    pub text: String,
    pub syntax_tree: String,
}

impl View for ProgramEntry {
    type V = EntryV;

    open spec fn view(&self) -> EntryV {
        EntryV { line: self.line@, text: self.text@, tree: self.syntax_tree@ }
    }
}

/// The views of a list of entries.
pub open spec fn entries_view(es: Seq<ProgramEntry>) -> Seq<EntryV> {
    es.map_values(|e: ProgramEntry| e@)
}

/// A session: a program being edited, and the interpreter that runs it.
#[derive(Debug)]
pub struct Interpreter {
    inner: Machine,
    entries: Vec<ProgramEntry>,
    started: bool,
}

impl View for Interpreter {
    type V = SessionV;

    closed spec fn view(&self) -> SessionV {
        SessionV { inner: self.inner@, entries: entries_view(self.entries@), started: self.started }
    }
}

/// The batch of a list of events.
fn batch_from(events: &Vec<InterpreterEvent>) -> (b: EventBatch)
    ensures
        b@ == batch_of(events_view(events@)),
{
    let mut b = EventBatch {
        outputs: Vec::new(),
        inputs: Vec::new(),
        errors: Vec::new(),
        debug_messages: Vec::new(),
        finished: false,
    };
    let ghost es = events_view(events@);
    assert(es.take(0) =~= Seq::<EventV>::empty());
    assert(b@ =~= batch_of(es.take(0)));
    let mut i: usize = 0;
    while i < events.len()
        invariant
            es == events_view(events@),
            i <= events.len(),
            b@ == batch_of(es.take(i as int)),
        decreases events.len() - i,
    {
        proof {
            assert(es.take(i + 1).drop_last() =~= es.take(i as int));
            assert(es.take(i + 1).last() == events@[i as int]@);
        }
        let ghost before = b@;
        match &events[i] {
            InterpreterEvent::Output(t) => b.outputs.push(t.clone()),
            InterpreterEvent::Input(t) => b.inputs.push(t.clone()),
            InterpreterEvent::Error(t) => b.errors.push(t.clone()),
            InterpreterEvent::Debug(t) => b.debug_messages.push(t.clone()),
            InterpreterEvent::Finished => b.finished = true,
        }
        assert(b@ =~= add_event(before, events@[i as int]@));
        i = i + 1;
    }
    assert(es.take(events.len() as int) =~= es);
    b
}

impl EventBatch {
    /// Appends the events of another batch, kind by kind.
    pub fn merge(&mut self, other: EventBatch)
        ensures
            final(self)@ == merged(old(self)@, other@),
    {
        let ghost o = other@;
        let ghost a = *self;
        let mut other = other;
        let ghost b = other;
        self.outputs.append(&mut other.outputs);
        self.inputs.append(&mut other.inputs);
        self.errors.append(&mut other.errors);
        self.debug_messages.append(&mut other.debug_messages);
        self.finished = self.finished || other.finished;
        assert(texts(self.outputs@) =~= texts(a.outputs@) + texts(b.outputs@));
        assert(texts(self.inputs@) =~= texts(a.inputs@) + texts(b.inputs@));
        assert(texts(self.errors@) =~= texts(a.errors@) + texts(b.errors@));
        assert(texts(self.debug_messages@) =~= texts(a.debug_messages@) + texts(b.debug_messages@));
        assert(self@ =~= merged(old(self)@, o));
    }
}

/// A line of text read as a numbered line.
fn parse_line_text(text: &str) -> (r: Result<Line, LineError>)
    requires
        lex_fits(text@),
    ensures
        match parse_text_line(text@) {
            ParsedV::Parsed(l) => r is Ok && r->Ok_0@ == l,
            ParsedV::Lexical => r matches Err(LineError::Tokenization(_)),
            ParsedV::Syntax(e) => r matches Err(LineError::Parse(pe)) && pe@ == e,
        },
{
    let tokens = match tokenize(text) {
        Ok(t) => t,
        Err(errors) => return Err(LineError::Tokenization(errors)),
    };
    let mut parser = Parser::new(tokens);
    match parser.line() {
        Ok(l) => Ok(l),
        Err(e) => Err(LineError::Parse(e)),
    }
}

/// A line of text read as a statement.
fn parse_stmt_text(text: &str) -> (r: Result<Stmt, LineError>)
    requires
        lex_fits(text@),
    ensures
        match parse_text_stmt(text@) {
            ParsedV::Parsed(st) => r is Ok && r->Ok_0@ == st,
            ParsedV::Lexical => r matches Err(LineError::Tokenization(_)),
            ParsedV::Syntax(e) => r matches Err(LineError::Parse(pe)) && pe@ == e,
        },
{
    let tokens = match tokenize(text) {
        Ok(t) => t,
        Err(errors) => return Err(LineError::Tokenization(errors)),
    };
    let mut parser = Parser::new(tokens);
    match parser.statement() {
        Ok(st) => Ok(st),
        Err(e) => Err(LineError::Parse(e)),
    }
}

proof fn lemma_insert_entry(es: Seq<EntryV>, e: EntryV, i: int)
    requires
        0 <= i <= es.len(),
        forall|j: int| 0 <= j < i ==> es[j].line.lineno < e.line.lineno,
        i < es.len() ==> es[i].line.lineno >= e.line.lineno,
    ensures
        insert_entry(es, e) == if i < es.len() && es[i].line.lineno == e.line.lineno {
            es.update(i, e)
        } else {
            es.insert(i, e)
        },
    decreases i,
{
    if i == 0 {
        if es.len() == 0 {
            assert(es.insert(0, e) =~= seq![e]);
        } else if e.line.lineno < es[0].line.lineno {
            assert(es.insert(0, e) =~= seq![e] + es);
        }
    } else {
        let rest = es.drop_first();
        lemma_insert_entry(rest, e, i - 1);
        if i < es.len() && es[i].line.lineno == e.line.lineno {
            assert(seq![es[0]] + rest.update(i - 1, e) =~= es.update(i, e));
        } else {
            assert(seq![es[0]] + rest.insert(i - 1, e) =~= es.insert(i, e));
        }
    }
}

proof fn lemma_entry_at(es: Seq<EntryV>, n: u32, i: int)
    requires
        0 <= i < es.len(),
        es[i].line.lineno == n,
        forall|j: int| 0 <= j < i ==> es[j].line.lineno != n,
    ensures
        entry_of(es, n) == Some(es[i]),
        without_line(es, n) == es.remove(i),
    decreases i,
{
    if i > 0 {
        lemma_entry_at(es.drop_first(), n, i - 1);
        assert(seq![es[0]] + es.drop_first().remove(i - 1) =~= es.remove(i));
    } else {
        assert(es.drop_first() =~= es.remove(0));
    }
}

proof fn lemma_entry_absent(es: Seq<EntryV>, n: u32)
    requires
        forall|j: int| 0 <= j < es.len() ==> es[j].line.lineno != n,
    ensures
        entry_of(es, n) is None,
    decreases es.len(),
{
    if es.len() > 0 {
        lemma_entry_absent(es.drop_first(), n);
    }
}

/// Text of a number, with a prefix.
fn message_with_number(prefix: &str, n: u32, suffix: &str) -> (r: String)
    ensures
        r@ == prefix@ + crate::text::nat_text(n as nat) + suffix@,
{
    let mut r = string_from_str(prefix);
    append_str(&mut r, u64_text(n as u64).as_str());
    append_str(&mut r, suffix);
    r
}

/// Messages joined by semicolons.
pub open spec fn joined_messages(ms: Seq<Seq<char>>) -> Seq<char>
    decreases ms.len(),
{
    if ms.len() == 0 {
        Seq::empty()
    } else if ms.len() == 1 {
        ms[0]
    } else {
        joined_messages(ms.drop_last()) + "; "@ + ms.last()
    }
}

/// The messages of lexical errors.
pub open spec fn lexical_messages(errors: Seq<LexicalError>) -> Seq<Seq<char>> {
    errors.map_values(|e: LexicalError| e.message@)
}

/// The message of a line error.
pub open spec fn line_error_text(e: LineError) -> Seq<char> {
    match e {
        LineError::Tokenization(errors) => "Tokenization error: "@ + joined_messages(
            lexical_messages(errors@),
        ),
        LineError::Parse(p) => "Parse error: "@ + crate::parser::parse_error_text(p@),
    }
}

impl LineError {
    /// The message of the error.
    pub fn to_string(&self) -> (r: String)
        ensures
            r@ == line_error_text(*self),
    {
        match self {
            LineError::Tokenization(errors) => {
                let mut r = string_from_str("Tokenization error: ");
                let ghost head = r@;
                let ghost ms = lexical_messages(errors@);
                let mut i: usize = 0;
                assert(ms.take(0) =~= Seq::<Seq<char>>::empty());
                while i < errors.len()
                    invariant
                        ms == lexical_messages(errors@),
                        i <= errors.len(),
                        r@ == head + joined_messages(ms.take(i as int)),
                    decreases errors.len() - i,
                {
                    let ghost before = r@;
                    if i > 0 {
                        append_str(&mut r, "; ");
                    }
                    append_str(&mut r, errors[i].message.as_str());
                    proof {
                        assert(ms.take(i + 1).drop_last() =~= ms.take(i as int));
                        assert(ms.take(i + 1).last() == errors@[i as int].message@);
                        if i == 0 {
                            assert(ms.take(1) =~= seq![errors@[0].message@]);
                        }
                    }
                    assert(r@ =~= head + joined_messages(ms.take(i + 1)));
                    i = i + 1;
                }
                assert(ms.take(errors.len() as int) =~= ms);
                r
            },
            LineError::Parse(e) => {
                let mut r = string_from_str("Parse error: ");
                append_str(&mut r, e.to_string().as_str());
                r
            },
        }
    }
}

/// The keyword of a statement.
pub open spec fn stmt_kind_text(st: StmtV) -> Seq<char> {
    match st {
        StmtV::Rem { .. } => "REM"@,
        StmtV::Let { .. } => "LET"@,
        StmtV::Print { .. } => "PRINT"@,
        StmtV::Input { .. } => "INPUT"@,
        StmtV::Goto { .. } => "GOTO"@,
        StmtV::IfThen { .. } => "IF"@,
        StmtV::End => "END"@,
    }
}

/// The message of a session error.
pub open spec fn session_error_text(e: SessionError) -> Seq<char> {
    match e {
        SessionError::Line(le) => line_error_text(le),
        SessionError::InvalidLine(_) => "Failed to parse line"@,
        SessionError::NotAllowed(st) => "Statement not allowed in direct mode: "@ + stmt_kind_text(st@),
        SessionError::CannotEdit => "Cannot edit program while interpreter is running"@,
        SessionError::LineNotFound(n) => "Line "@ + crate::text::nat_text(n as nat) + " not found"@,
        SessionError::InputRefused => "Failed to provide input"@,
    }
}

/// The keyword of a statement.
fn stmt_kind(st: &Stmt) -> (r: &'static str)
    ensures
        r@ == stmt_kind_text(st@),
{
    match st {
        Stmt::Rem { .. } => "REM",
        Stmt::Let { .. } => "LET",
        Stmt::Print { .. } => "PRINT",
        Stmt::Input { .. } => "INPUT",
        Stmt::Goto { .. } => "GOTO",
        Stmt::IfThen { .. } => "IF",
        Stmt::End => "END",
    }
}

impl SessionError {
    /// The message of the error.
    pub fn to_string(&self) -> (r: String)
        ensures
            r@ == session_error_text(*self),
    {
        match self {
            SessionError::Line(e) => e.to_string(),
            SessionError::InvalidLine(_) => string_from_str("Failed to parse line"),
            SessionError::NotAllowed(st) => {
                let mut r = string_from_str("Statement not allowed in direct mode: ");
                append_str(&mut r, stmt_kind(st));
                r
            },
            SessionError::CannotEdit => string_from_str(
                "Cannot edit program while interpreter is running",
            ),
            SessionError::LineNotFound(n) => message_with_number("Line ", *n, " not found"),
            SessionError::InputRefused => string_from_str("Failed to provide input"),
        }
    }
}

/// The statistics of the lines of a program that ran, in program order.
pub open spec fn stat_rows(ls: Seq<LineV>, stats: Map<u32, crate::interpreter::LineStats>) -> Seq<
    (u32, crate::interpreter::LineStats),
>
    decreases ls.len(),
{
    if ls.len() == 0 {
        Seq::empty()
    } else {
        let rest = stat_rows(ls.drop_last(), stats);
        let n = ls.last().lineno;
        if stats.contains_key(n) {
            rest.push((n, stats[n]))
        } else {
            rest
        }
    }
}

/// The view of a row of statistics.
pub open spec fn stat_row_view(x: LineStats) -> (u32, crate::interpreter::LineStats) {
    (
        x.lineno,
        crate::interpreter::LineStats {
            execution_count: x.execution_count,
            if_true_count: x.if_true_count,
            if_false_count: x.if_false_count,
        },
    )
}

/// The number that `v[lo..hi]` is, as `parse_u32` reads it.
fn parse_u32_chars(v: &Vec<char>, lo: usize, hi: usize) -> (r: Option<u32>)
    requires
        lo <= hi <= v.len(),
    ensures
        r == parse_u32(v@.subrange(lo as int, hi as int)),
{
    let ghost t = v@.subrange(lo as int, hi as int);
    if lo < hi && v[lo] == '-' {
        assert(t[0] == '-');
        assert(!crate::text::is_digit(t[0]));
        return None;
    }
    let ghost digits = if t.len() > 0 && t[0] == '+' { t.drop_first() } else { t };
    proof {
        assert(t.skip(crate::value::sign_len(t)) =~= digits);
        if all_digits(digits) {
            crate::text::lemma_digits_nonneg(digits);
        }
    }
    match crate::value::parse_int_chars(v, lo, hi) {
        Some(x) => if 0 <= x && x <= 4294967295i64 {
            Some(x as u32)
        } else {
            None
        },
        None => None,
    }
}

impl Interpreter {
    /// A session with no program.
    pub fn new() -> (r: Self)
        ensures
            r@ == (SessionV { inner: fresh(Seq::empty()), entries: Seq::empty(), started: false }),
    {
        let inner = Machine::new(Vec::new());
        let r = Interpreter { inner, entries: Vec::new(), started: false };
        assert(entries_view(r.entries@) =~= Seq::<EntryV>::empty());
        assert(lines_view(Seq::<Line>::empty()) =~= entry_lines(Seq::<EntryV>::empty()));
        r
    }

    /// Whether the program may be edited: before execution starts, and
    /// after it finished or failed.
    pub fn can_edit(&self) -> (b: bool)
        ensures
            b == editable(self@),
    {
        match self.inner.state() {
            MachineState::Finished => true,
            MachineState::Error(_) => true,
            MachineState::Ready => !self.started,
            MachineState::WaitingForInput(_) => false,
        }
    }

    /// Builds the interpreter afresh for the program.
    fn rebuild(&mut self)
        ensures
            final(self)@ == rebuilt(old(self)@),
    {
        let ghost es = entries_view(self.entries@);
        let mut lines: Vec<Line> = Vec::new();
        let mut i: usize = 0;
        while i < self.entries.len()
            invariant
                es == entries_view(self.entries@),
                i <= self.entries.len(),
                lines_view(lines@) == entry_lines(es).take(i as int),
            decreases self.entries.len() - i,
        {
            let l = self.entries[i].line.duplicate();
            assert(entry_lines(es)[i as int] == l@);
            let ghost before = lines_view(lines@);
            let ghost lv = l@;
            lines.push(l);
            assert(lines_view(lines@) =~= before.push(lv));
            assert(entry_lines(es).take(i + 1) =~= entry_lines(es).take(i as int).push(lv));
            i = i + 1;
        }
        assert(entry_lines(es).take(self.entries.len() as int) =~= entry_lines(es));
        proof {
            if es.len() > 0 {
                assert(lines_view(lines@)[0] == lines@[0]@);
            }
        }
        self.inner = Machine::new(lines);
        self.started = false;
    }

    /// The index of the entry with line number `n`.
    fn find_entry(&self, n: u32) -> (r: Option<usize>)
        ensures
            match r {
                Some(i) => i < self.entries.len() && entry_of(self@.entries, n) == Some(
                    self@.entries[i as int],
                ) && without_line(self@.entries, n) == self@.entries.remove(i as int),
                None => entry_of(self@.entries, n) is None,
            },
    {
        let ghost es = entries_view(self.entries@);
        let mut i: usize = 0;
        while i < self.entries.len()
            invariant
                es == entries_view(self.entries@),
                i <= self.entries.len(),
                forall|j: int| 0 <= j < i ==> #[trigger] es[j].line.lineno != n,
            decreases self.entries.len() - i,
        {
            if self.entries[i].line.lineno == n {
                proof {
                    lemma_entry_at(es, n, i as int);
                }
                return Some(i);
            }
            i = i + 1;
        }
        proof {
            lemma_entry_absent(es, n);
        }
        None
    }

    /// Adds an entry in order of line numbers, replacing one with the same
    /// line number.
    fn insert_entry(&mut self, e: ProgramEntry)
        ensures
            final(self)@ == (SessionV { entries: insert_entry(old(self)@.entries, e@), ..old(self)@ }),
    {
        let ghost es = entries_view(self.entries@);
        let ghost ev = e@;
        let mut i: usize = 0;
        while i < self.entries.len() && self.entries[i].line.lineno < e.line.lineno
            invariant
                es == entries_view(self.entries@),
                i <= self.entries.len(),
                forall|j: int| 0 <= j < i ==> #[trigger] es[j].line.lineno < e.line.lineno,
            decreases self.entries.len() - i,
        {
            i = i + 1;
        }
        proof {
            lemma_insert_entry(es, ev, i as int);
        }
        if i < self.entries.len() && self.entries[i].line.lineno == e.line.lineno {
            self.entries.set(i, e);
            assert(entries_view(self.entries@) =~= es.update(i as int, ev));
        } else {
            self.entries.insert(i, e);
            assert(entries_view(self.entries@) =~= es.insert(i as int, ev));
        }
    }

    /// Adds (or replaces) the line that the text is, and rebuilds the
    /// interpreter. The syntax tree shows the statistics so far.
    fn add_line(&mut self, line_text: &str) -> (r: Result<u32, SessionError>)
        requires
            lex_fits(line_text@),
        ensures
            match parse_text_line(line_text@) {
                ParsedV::Parsed(l) => r == Ok::<u32, SessionError>(l.lineno) && final(self)@ == rebuilt(
                    SessionV {
                        entries: insert_entry(
                            old(self)@.entries,
                            EntryV { line: l, text: line_text@, tree: tree_for(old(self)@.inner, l) },
                        ),
                        ..old(self)@
                    },
                ),
                _ => r matches Err(SessionError::InvalidLine(_)) && final(self)@ == old(self)@,
            },
    {
        let line = match parse_line_text(line_text) {
            Ok(l) => l,
            Err(e) => return Err(SessionError::InvalidLine(e)),
        };
        let lineno = line.lineno;
        let tree = self.inner.generate_syntax_tree(&line);
        let text = string_from_str(line_text);
        self.insert_entry(ProgramEntry { line, text, syntax_tree: tree });
        self.rebuild();
        Ok(lineno)
    }

    /// Deletes the line with number `lineno`, and rebuilds the interpreter;
    /// a number that is no line of the program leaves the session as it is.
    fn delete_line(&mut self, lineno: u32)
        ensures
            if entry_of(old(self)@.entries, lineno) is Some {
                final(self)@ == rebuilt(
                    SessionV { entries: without_line(old(self)@.entries, lineno), ..old(self)@ },
                )
            } else {
                final(self)@ == old(self)@
            },
    {
        match self.find_entry(lineno) {
            Some(i) => {
                let ghost es = entries_view(self.entries@);
                let _ = self.entries.remove(i);
                assert(entries_view(self.entries@) =~= es.remove(i as int));
                self.rebuild();
            },
            None => {},
        }
    }

    /// Edits the program: a text that is only a line number deletes that
    /// line; any other text adds the line it is, or replaces the line with
    /// its number.
    pub fn process_line(&mut self, line_text: &str) -> (r: Result<LineOpResult, SessionError>)
        requires
            editable(old(self)@) && parse_u32(trim(line_text@)) is None ==> lex_fits(line_text@),
        ensures
            !editable(old(self)@) ==> (r matches Err(SessionError::CannotEdit) && final(self)@ == old(
                self,
            )@),
            editable(old(self)@) ==> match parse_u32(trim(line_text@)) {
                Some(n) => {
                    &&& r is Ok
                    &&& r->Ok_0.op_type == LineOpType::Deleted
                    &&& r->Ok_0.lineno == n
                    &&& if entry_of(old(self)@.entries, n) is Some {
                        final(self)@ == rebuilt(
                            SessionV { entries: without_line(old(self)@.entries, n), ..old(self)@ },
                        )
                    } else {
                        final(self)@ == old(self)@
                    }
                },
                None => match parse_text_line(line_text@) {
                    ParsedV::Parsed(l) => {
                        &&& r is Ok
                        &&& r->Ok_0.op_type == LineOpType::Added
                        &&& r->Ok_0.lineno == l.lineno
                        &&& final(self)@ == rebuilt(
                            SessionV {
                                entries: insert_entry(
                                    old(self)@.entries,
                                    EntryV { line: l, text: line_text@, tree: tree_for(old(self)@.inner, l) },
                                ),
                                ..old(self)@
                            },
                        )
                    },
                    _ => r matches Err(SessionError::InvalidLine(_)) && final(self)@ == old(self)@,
                },
            },
    {
        if !self.can_edit() {
            return Err(SessionError::CannotEdit);
        }
        let chars = chars_of(line_text);
        let (lo, hi) = crate::value::trim_bounds(&chars);
        match parse_u32_chars(&chars, lo, hi) {
            Some(lineno) => {
                self.delete_line(lineno);
                Ok(LineOpResult { op_type: LineOpType::Deleted, lineno })
            },
            None => {
                match self.add_line(line_text) {
                    Ok(lineno) => Ok(LineOpResult { op_type: LineOpType::Added, lineno }),
                    Err(e) => Err(e),
                }
            },
        }
    }

    /// Runs a statement directly, without a line number: only `LET`,
    /// `PRINT` and `INPUT` are allowed. Returns the events so far.
    pub fn execute(&mut self, line_text: &str) -> (r: Result<EventBatch, SessionError>)
        requires
            lex_fits(line_text@),
        ensures
            match parse_text_stmt(line_text@) {
                ParsedV::Lexical => r matches Err(SessionError::Line(LineError::Tokenization(_)))
                    && final(self)@ == old(self)@,
                ParsedV::Syntax(e) => r matches Err(SessionError::Line(LineError::Parse(pe))) && pe@
                    == e && final(self)@ == old(self)@,
                ParsedV::Parsed(st) => if direct_allowed(st) {
                    &&& r is Ok
                    &&& r->Ok_0@ == batch_of(executed_directly(old(self)@.inner, st).events)
                    &&& final(self)@ == (SessionV {
                        inner: drained(executed_directly(old(self)@.inner, st)),
                        ..old(self)@
                    })
                } else {
                    r matches Err(SessionError::NotAllowed(_)) && final(self)@ == old(self)@
                },
            },
    {
        let stmt = match parse_stmt_text(line_text) {
            Ok(st) => st,
            Err(e) => return Err(SessionError::Line(e)),
        };
        let allowed = match &stmt {
            Stmt::Let { .. } => true,
            Stmt::Print { .. } => true,
            Stmt::Input { .. } => true,
            _ => false,
        };
        if !allowed {
            return Err(SessionError::NotAllowed(stmt));
        }
        self.inner.execute(stmt);
        let events = self.inner.take_events();
        Ok(batch_from(&events))
    }

    /// Runs one step of the program; returns its events.
    pub fn step(&mut self) -> (b: EventBatch)
        ensures
            b@ == batch_of(stepped(old(self)@.inner).events),
            final(self)@ == (SessionV {
                inner: drained(stepped(old(self)@.inner)),
                started: true,
                ..old(self)@
            }),
    {
        self.started = true;
        self.inner.step();
        let events = self.inner.take_events();
        batch_from(&events)
    }

    /// Builds the interpreter afresh; the program stays.
    pub fn reset(&mut self)
        ensures
            final(self)@ == rebuilt(old(self)@),
    {
        self.rebuild();
    }

    /// Removes the program and builds an empty interpreter.
    pub fn clear(&mut self)
        ensures
            final(self)@ == (SessionV { inner: fresh(Seq::empty()), entries: Seq::empty(), started: false }),
    {
        self.inner = Machine::new(Vec::new());
        self.entries = Vec::new();
        self.started = false;
        assert(entries_view(self.entries@) =~= Seq::<EntryV>::empty());
        assert(lines_view(Seq::<Line>::empty()) =~= entry_lines(Seq::<EntryV>::empty()));
    }

    /// Provides the input that the program waits for.
    pub fn provide_input(&mut self, value: &str) -> (r: Result<(), SessionError>)
        ensures
            match old(self)@.inner.state {
                StateV::WaitingForInput(name) => r is Ok && final(self)@ == (SessionV {
                    inner: with_input(old(self)@.inner, name, parse_value(value@)),
                    ..old(self)@
                }),
                _ => r matches Err(SessionError::InputRefused) && final(self)@ == old(self)@,
            },
    {
        let val = match Value::from_str(value) {
            Ok(v) => v,
            Err(_) => return Err(SessionError::InputRefused),
        };
        match self.inner.provide_input(val) {
            Ok(()) => Ok(()),
            Err(_) => Err(SessionError::InputRefused),
        }
    }

    /// The state of the interpreter.
    pub fn get_state(&self) -> (r: InterpreterState)
        ensures
            r == plain_state(self@.inner.state),
    {
        match self.inner.state() {
            MachineState::Ready => InterpreterState::Ready,
            MachineState::WaitingForInput(_) => InterpreterState::WaitingForInput,
            MachineState::Finished => InterpreterState::Finished,
            MachineState::Error(_) => InterpreterState::Error,
        }
    }

    /// The number of the current line.
    pub fn get_current_line(&self) -> (r: u32)
        ensures
            r == self@.inner.pc,
    {
        *self.inner.pc()
    }

    /// The message of the error the program stopped with, or nothing.
    pub fn get_error_message(&self) -> (r: String)
        ensures
            match self@.inner.state {
                StateV::Error(m) => r@ == m,
                _ => r@ == Seq::<char>::empty(),
            },
    {
        match self.inner.state() {
            MachineState::Error(msg) => msg.clone(),
            _ => String::new(),
        }
    }

    /// The variable that the program waits for input into, or nothing.
    pub fn get_waiting_for_input(&self) -> (r: String)
        ensures
            match self@.inner.state {
                StateV::WaitingForInput(name) => r@ == name,
                _ => r@ == Seq::<char>::empty(),
            },
    {
        match self.inner.state() {
            MachineState::WaitingForInput(name) => name.clone(),
            _ => String::new(),
        }
    }

    /// The variables, each once, with their values as text and their use
    /// counts.
    pub fn get_variables(&self) -> (r: Vec<Variable>)
        ensures
            r.len() == self@.inner.vars.len(),
            forall|i: int| #![trigger r[i]]
                0 <= i < r.len() ==> {
                    &&& self@.inner.vars.contains_key(r[i].name@)
                    &&& r[i].value@ == value_text(self@.inner.vars[r[i].name@])
                    &&& r[i].use_count == use_count(self@.inner.uses, r[i].name@)
                },
            forall|i: int, j: int| 0 <= i < j < r.len() ==> r[i].name@ != r[j].name@,
    {
        let vars = &self.inner.context().variables;
        let counts = self.inner.variable_use_counts();
        let n = vars.len();
        let mut r: Vec<Variable> = Vec::new();
        let mut i: usize = 0;
        while i < n
            invariant
                n == vars.pairs().len(),
                n == self@.inner.vars.len(),
                vars@ == self@.inner.vars,
                counts@ == self@.inner.uses,
                i <= n,
                r.len() == i,
                forall|k: int| #![trigger r[k]]
                    0 <= k < i ==> {
                        &&& r[k].name@ == vars.pairs()[k].0
                        &&& self@.inner.vars.contains_key(r[k].name@)
                        &&& r[k].value@ == value_text(self@.inner.vars[r[k].name@])
                        &&& r[k].use_count == use_count(self@.inner.uses, r[k].name@)
                    },
                forall|a: int, b: int| 0 <= a < b < i ==> r[a].name@ != r[b].name@,
            decreases n - i,
        {
            let (name, value) = vars.entry_at(i);
            let use_count = match counts.get(name.as_str()) {
                Some(c) => *c,
                None => 0,
            };
            proof {
                assert forall|a: int| 0 <= a < i implies r[a].name@ != name@ by {
                    assert(vars.pairs()[a].0 != name@);
                }
            }
            r.push(Variable { name: name.clone(), value: value.to_string(), use_count });
            i = i + 1;
        }
        r
    }

    /// The statistics of the lines that ran, in program order.
    pub fn get_line_stats(&self) -> (r: Vec<LineStats>)
        ensures
            r@.map_values(|x: LineStats| stat_row_view(x)) == stat_rows(self@.inner.program, self@.inner.stats),
    {
        let program = self.inner.program();
        let stats = self.inner.line_stats();
        let ghost ls = lines_view(program@);
        let mut r: Vec<LineStats> = Vec::new();
        let mut i: usize = 0;
        assert(ls.take(0) =~= Seq::<LineV>::empty());
        assert(r@.map_values(|x: LineStats| stat_row_view(x)) =~= stat_rows(ls.take(0), stats@));
        while i < program.len()
            invariant
                ls == lines_view(program@),
                ls == self@.inner.program,
                stats@ == self@.inner.stats,
                i <= program.len(),
                r@.map_values(|x: LineStats| stat_row_view(x)) == stat_rows(ls.take(i as int), stats@),
            decreases program.len() - i,
        {
            let n = program[i].lineno;
            proof {
                assert(ls.take(i + 1).drop_last() =~= ls.take(i as int));
                assert(ls.take(i + 1).last() == program@[i as int]@);
            }
            match stats.get(&n) {
                Some(st) => {
                    let ghost before = r@;
                    r.push(
                        LineStats {
                            lineno: n,
                            execution_count: st.execution_count,
                            if_true_count: st.if_true_count,
                            if_false_count: st.if_false_count,
                        },
                    );
                    assert(r@.map_values(|x: LineStats| stat_row_view(x)) =~= before.map_values(
                        |x: LineStats| stat_row_view(x),
                    ).push(stat_row_view(r@.last())));
                },
                None => {},
            }
            i = i + 1;
        }
        assert(ls.take(program.len() as int) =~= ls);
        r
    }

    /// The syntax tree of a line of the program.
    pub fn get_syntax_tree(&self, lineno: u32) -> (r: Result<String, SessionError>)
        ensures
            match entry_of(self@.entries, lineno) {
                Some(e) => r is Ok && r->Ok_0@ == e.tree,
                None => r matches Err(SessionError::LineNotFound(m)) && m == lineno,
            },
    {
        match self.find_entry(lineno) {
            Some(i) => Ok(self.entries[i].syntax_tree.clone()),
            None => Err(SessionError::LineNotFound(lineno)),
        }
    }

    /// Replaces the program with the lines of a source text. Blank lines
    /// are skipped; the first invalid line stops the load with its error,
    /// keeping the lines read before it and an interpreter with no program.
    pub fn load_source(&mut self, content: &str) -> (r: Result<(), SessionError>)
        requires
            load_fits(lines_from(content@, 0)),
        ensures
            ({
                let (es, complete) = load_lines(Seq::empty(), lines_from(content@, 0));
                if complete {
                    r is Ok && final(self)@ == rebuilt(
                        SessionV { inner: fresh(Seq::empty()), entries: es, started: false },
                    )
                } else {
                    r matches Err(SessionError::Line(_)) && final(self)@ == (SessionV {
                        inner: fresh(Seq::empty()),
                        entries: es,
                        started: false,
                    })
                }
            }),
    {
        self.clear();
        let v = chars_of(content);
        let ghost all = lines_from(v@, 0);
        let mut i: usize = 0;
        let ghost mut k: int = 0;
        assert(all.skip(0) =~= all);
        assert(entries_view(self.entries@) =~= Seq::<EntryV>::empty());
        while i < v.len()
            invariant
                v@ == content@,
                all == lines_from(v@, 0),
                i <= v.len(),
                0 <= k <= all.len(),
                lines_from(v@, i as int) == all.skip(k),
                load_lines(Seq::empty(), all) == load_lines(self@.entries, all.skip(k)),
                self@.inner == fresh(Seq::empty()),
                self@.started == false,
                load_fits(all.skip(k)),
            decreases v.len() - i,
        {
            let mut e = i;
            while e < v.len() && v[e] != '\n'
                invariant
                    i <= e <= v.len(),
                    line_end(v@, i as int) == line_end(v@, e as int),
                decreases v.len() - e,
            {
                e = e + 1;
            }
            proof {
                lemma_line_end(v@, i as int);
            }
            let end = if e < v.len() && e > i && v[e - 1] == '\r' { e - 1 } else { e };
            let piece = string_of_range(&v, i, end);
            proof {
                let raw = v@.subrange(i as int, e as int);
                if e < v.len() && e > i && v@[e - 1] == '\r' {
                    assert(raw.drop_last() =~= v@.subrange(i as int, end as int));
                }
                assert(all.skip(k).len() > 0);
                assert(all.skip(k)[0] == piece@);
                assert(all[k] == piece@);
                assert(all.skip(k + 1) =~= all.skip(k).drop_first());
            }
            let pc = chars_of(piece.as_str());
            let (lo, hi) = crate::value::trim_bounds(&pc);
            assert(trim(piece@).len() == hi - lo);
            if lo < hi {
                match parse_line_text(piece.as_str()) {
                    Ok(line) => {
                        let tree = self.inner.generate_syntax_tree(&line);
                        self.insert_entry(ProgramEntry { line, text: piece, syntax_tree: tree });
                    },
                    Err(err) => {
                        return Err(SessionError::Line(err));
                    },
                }
            }
            i = if e < v.len() { e + 1 } else { e };
            proof {
                k = k + 1;
                if e >= v.len() {
                    assert(lines_from(v@, i as int) =~= Seq::<Seq<char>>::empty());
                }
            }
        }
        assert(all.skip(k) =~= Seq::<Seq<char>>::empty());
        self.rebuild();
        Ok(())
    }

    /// The lines of the program, in order of line numbers, with their texts
    /// and syntax trees.
    pub fn get_program_lines(&self) -> (r: Vec<ProgramLine>)
        ensures
            r.len() == self@.entries.len(),
            forall|i: int| #![trigger r[i]]
                0 <= i < r.len() ==> {
                    &&& r[i].lineno == self@.entries[i].line.lineno
                    &&& r[i].text@ == self@.entries[i].text
                    &&& r[i].syntax_tree@ == self@.entries[i].tree
                },
    {
        let mut r: Vec<ProgramLine> = Vec::new();
        let mut i: usize = 0;
        while i < self.entries.len()
            invariant
                i <= self.entries.len(),
                r.len() == i,
                forall|k: int| #![trigger r[k]]
                    0 <= k < i ==> {
                        &&& r[k].lineno == self@.entries[k].line.lineno
                        &&& r[k].text@ == self@.entries[k].text
                        &&& r[k].syntax_tree@ == self@.entries[k].tree
                    },
            decreases self.entries.len() - i,
        {
            let e = &self.entries[i];
            r.push(
                ProgramLine {
                    lineno: e.line.lineno,
                    text: e.text.clone(),
                    syntax_tree: e.syntax_tree.clone(),
                },
            );
            i = i + 1;
        }
        r
    }
}

impl Default for Interpreter {
    fn default() -> (r: Self)
        ensures
            r@ == (SessionV { inner: fresh(Seq::empty()), entries: Seq::empty(), started: false }),
    {
        Interpreter::new()
    }
}

} // verus!
