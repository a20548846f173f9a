# qbasic_rs

A small QBasic: a lexer, a recursive-descent parser, an expression evaluator,
a step-wise interpreter with execution statistics, and an editing session for
a user interface. The library is written in Verus; each public function states
what it computes in its contract, and Verus proves it.

## Layout

- `src/text.rs`: decimal text of integers, strings from characters.
- `src/token.rs`, `src/lexer.rs`: tokens and the lexer (`tokenize`), with the
  positions of lexical errors (`get_line_col`).
- `src/ast.rs`, `src/parser.rs`: the syntax tree and the parser; the grammar
  is stated as spec functions over token sequences.
- `src/names.rs`: maps keyed by names (variables, use counts).
- `src/value.rs`: values, evaluation of expressions, values as text and text
  as values.
- `src/action.rs`: what a statement asks of the interpreter.
- `src/event.rs`: the events the interpreter reports.
- `src/interpreter.rs`: the interpreter as a state machine (`step`, `next`,
  `provide_input`), with statistics per line and per variable.
- `src/display.rs`: the syntax tree of a line as text, with statistics.
- `src/session.rs`: a program edited line by line, run step by step.
- `app/`: the `qbasic` command (runs a file) and the C++ bridge over the
  session.

Arithmetic is on 64-bit integers: a result out of range is an `Integer
overflow` error, and a remainder by zero a `Division by zero` error. `**`
gives what a correctly rounded `f64` power gives once converted to a 64-bit
integer: the base and the power are rounded to the nearest `f64` (ties to
even), and the result saturates at the 64-bit range.
