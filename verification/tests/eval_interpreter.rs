use qbasic_rs::ast::{BinaryOp, Expr, Line, LiteralValue, Stmt};
use qbasic_rs::event::InterpreterEvent;
use qbasic_rs::interpreter::{Interpreter, InterpreterState};
use qbasic_rs::token::{Math, Relational};
use qbasic_rs::value::Value;

fn int_expr(value: u32) -> Expr {
    Expr::Literal(LiteralValue::Integer(value))
}

fn var_expr(name: &str) -> Expr {
    Expr::Variable { name: name.to_string() }
}

fn relational_expr(left: Expr, op: Relational, right: Expr) -> Expr {
    Expr::Binary { operator: BinaryOp::Relational(op), left: Box::new(left), right: Box::new(right) }
}

/// Runs until the program stops or asks for input, going on after each
/// output; returns the outputs.
fn run_to_end(interpreter: &mut Interpreter) -> Vec<String> {
    let mut outputs = Vec::new();
    while *interpreter.state() == InterpreterState::Ready {
        interpreter.step();
        let mut should_continue = false;
        for event in interpreter.take_events() {
            match event {
                InterpreterEvent::Output(text) => {
                    outputs.push(text);
                    should_continue = true;
                }
                InterpreterEvent::Input(_) => return outputs,
                _ => (),
            }
        }
        if should_continue {
            interpreter.next();
        }
    }
    outputs
}

#[test]
fn test_interpreter_basic_execution() {
    let lines = vec![
        Line { lineno: 10, statement: Stmt::Let { name: "X".to_string(), expr: int_expr(42) } },
        Line { lineno: 20, statement: Stmt::Print { expr: var_expr("X") } },
        Line { lineno: 30, statement: Stmt::End },
    ];

    let mut interpreter = Interpreter::new(lines);
    run_to_end(&mut interpreter);

    assert_eq!(interpreter.state(), &InterpreterState::Finished);
    assert_eq!(interpreter.context().variables.get("X"), Some(&Value::Integer(42)));
}

#[test]
fn test_interpreter_goto() {
    let lines = vec![
        Line { lineno: 10, statement: Stmt::Goto { lineno: 30 } },
        Line {
            lineno: 20,
            statement: Stmt::Let {
                name: "X".to_string(),
                expr: int_expr(1), // Should be skipped
            },
        },
        Line {
            lineno: 30,
            statement: Stmt::Let {
                name: "X".to_string(),
                expr: int_expr(2), // Should be executed
            },
        },
        Line { lineno: 40, statement: Stmt::End },
    ];

    let mut interpreter = Interpreter::new(lines);
    run_to_end(&mut interpreter);

    assert_eq!(interpreter.state(), &InterpreterState::Finished);
    assert_eq!(interpreter.context().variables.get("X"), Some(&Value::Integer(2)));
}

#[test]
fn test_interpreter_if_then() {
    let lines = vec![
        Line { lineno: 10, statement: Stmt::Let { name: "X".to_string(), expr: int_expr(5) } },
        Line {
            lineno: 20,
            statement: Stmt::IfThen {
                conditional: relational_expr(var_expr("X"), Relational::Lt, int_expr(10)),
                lineno: 40,
            },
        },
        Line {
            lineno: 30,
            statement: Stmt::Let {
                name: "Y".to_string(),
                expr: int_expr(1), // Should be skipped
            },
        },
        Line {
            lineno: 40,
            statement: Stmt::Let {
                name: "Y".to_string(),
                expr: int_expr(2), // Should be executed
            },
        },
        Line { lineno: 50, statement: Stmt::End },
    ];

    let mut interpreter = Interpreter::new(lines);
    run_to_end(&mut interpreter);

    assert_eq!(interpreter.state(), &InterpreterState::Finished);
    assert_eq!(interpreter.context().variables.get("Y"), Some(&Value::Integer(2)));
}

#[test]
fn test_lines_are_run_in_number_order() {
    // Given out of order, with a replaced line.
    let lines = vec![
        Line { lineno: 30, statement: Stmt::Print { expr: int_expr(3) } },
        Line { lineno: 10, statement: Stmt::Print { expr: int_expr(1) } },
        Line { lineno: 20, statement: Stmt::Print { expr: int_expr(2) } },
        Line { lineno: 10, statement: Stmt::Print { expr: int_expr(9) } },
    ];
    let mut interpreter = Interpreter::new(lines);
    // The first line given is where execution starts.
    assert_eq!(*interpreter.pc(), 30);
    assert_eq!(run_to_end(&mut interpreter), vec!["3"]);
    let numbers: Vec<u32> = interpreter.program().iter().map(|l| l.lineno).collect();
    assert_eq!(numbers, vec![10, 20, 30]);

    let lines = vec![
        Line { lineno: 10, statement: Stmt::Print { expr: int_expr(1) } },
        Line { lineno: 30, statement: Stmt::Print { expr: int_expr(3) } },
        Line { lineno: 20, statement: Stmt::Print { expr: int_expr(2) } },
        Line { lineno: 10, statement: Stmt::Print { expr: int_expr(9) } },
    ];
    let mut interpreter = Interpreter::new(lines);
    assert_eq!(run_to_end(&mut interpreter), vec!["9", "2", "3"]);
    assert_eq!(interpreter.state(), &InterpreterState::Finished);
}

#[test]
fn test_jump_to_missing_line() {
    let lines = vec![Line { lineno: 10, statement: Stmt::Goto { lineno: 99 } }];
    let mut interpreter = Interpreter::new(lines);
    interpreter.step();
    assert_eq!(interpreter.state(), &InterpreterState::Error("Line 99 not found".to_string()));
    let events = interpreter.take_events();
    assert_eq!(events, vec![InterpreterEvent::Error("Line 99 not found".to_string())]);
    // Stepping an interpreter in error does nothing.
    interpreter.step();
    assert!(!interpreter.has_events());
    assert_eq!(*interpreter.pc(), 10);
}

#[test]
fn test_events_of_a_run() {
    let lines = vec![
        Line { lineno: 10, statement: Stmt::Print { expr: int_expr(1) } },
        Line { lineno: 20, statement: Stmt::Goto { lineno: 40 } },
        Line { lineno: 30, statement: Stmt::End },
        Line { lineno: 40, statement: Stmt::Let { name: "A".to_string(), expr: int_expr(7) } },
    ];
    let mut interpreter = Interpreter::new(lines);
    interpreter.step();
    assert_eq!(interpreter.take_events(), vec![InterpreterEvent::Output("1".to_string())]);
    interpreter.step();
    assert_eq!(
        interpreter.take_events(),
        vec![
            InterpreterEvent::Debug("Moving to line 20".to_string()),
            InterpreterEvent::Debug("Jumping to line 40".to_string()),
        ]
    );
    interpreter.step();
    assert_eq!(interpreter.take_events(), vec![InterpreterEvent::Finished]);
    assert_eq!(interpreter.state(), &InterpreterState::Finished);
}

#[test]
fn test_input_flow() {
    let lines = vec![
        Line { lineno: 10, statement: Stmt::Input { name: "N".to_string() } },
        Line { lineno: 20, statement: Stmt::Print { expr: var_expr("N") } },
    ];
    let mut interpreter = Interpreter::new(lines);
    // Input is refused unless asked for.
    assert!(interpreter.provide_input(Value::Integer(1)).is_err());
    assert_eq!(
        interpreter.provide_input(Value::Integer(1)).unwrap_err().to_string(),
        "Interpreter is not waiting for input"
    );
    interpreter.step();
    assert_eq!(interpreter.state(), &InterpreterState::WaitingForInput("N".to_string()));
    assert_eq!(interpreter.take_events(), vec![InterpreterEvent::Input("N".to_string())]);
    // Stepping while waiting does nothing.
    interpreter.step();
    assert!(!interpreter.has_events());
    interpreter.provide_input(Value::String("abc".to_string())).unwrap();
    assert_eq!(
        interpreter.take_events(),
        vec![
            InterpreterEvent::Debug("Input received for N: abc".to_string()),
            InterpreterEvent::Debug("Moving to line 20 after input".to_string()),
        ]
    );
    assert_eq!(run_to_end(&mut interpreter), vec!["abc"]);
}

#[test]
fn test_runtime_error_event() {
    let lines = vec![Line {
        lineno: 10,
        statement: Stmt::Print {
            expr: Expr::Binary {
                operator: BinaryOp::Arithmetic(Math::Division),
                left: Box::new(int_expr(1)),
                right: Box::new(int_expr(0)),
            },
        },
    }];
    let mut interpreter = Interpreter::new(lines);
    interpreter.step();
    assert_eq!(interpreter.state(), &InterpreterState::Error("Division by zero".to_string()));
    assert_eq!(interpreter.take_events(), vec![InterpreterEvent::Error("Division by zero".to_string())]);
}

#[test]
fn test_direct_execution() {
    let mut interpreter = Interpreter::default();
    interpreter.execute(Stmt::Let { name: "A".to_string(), expr: int_expr(4) });
    interpreter.execute(Stmt::Print { expr: var_expr("A") });
    assert_eq!(interpreter.take_events(), vec![InterpreterEvent::Output("4".to_string())]);
    // The statistics and the current line stay as they are.
    assert!(interpreter.line_stats().is_empty());
    assert_eq!(*interpreter.pc(), 0);
    interpreter.execute(Stmt::Input { name: "B".to_string() });
    assert_eq!(interpreter.state(), &InterpreterState::WaitingForInput("B".to_string()));
}

#[test]
fn test_empty_program_finishes() {
    let mut interpreter = Interpreter::new(Vec::new());
    interpreter.step();
    assert_eq!(interpreter.state(), &InterpreterState::Finished);
    assert_eq!(interpreter.take_events(), vec![InterpreterEvent::Finished]);
}
