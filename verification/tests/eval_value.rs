use qbasic_rs::ast::{BinaryOp, Expr, LiteralValue, UnaryOp};
use qbasic_rs::names::NameMap;
use qbasic_rs::token::{Math, Relational};
use qbasic_rs::value::{Context, EvalError, Value};

// Helper to create a Context for testing
fn create_test_context() -> Context {
    Context { variables: NameMap::new() }
}

// Helper to create a simple integer expression
fn int_expr(value: u32) -> Expr {
    Expr::Literal(LiteralValue::Integer(value))
}

// Helper to create a variable expression
fn var_expr(name: &str) -> Expr {
    Expr::Variable { name: name.to_string() }
}

// Helper to create a binary arithmetic expression
fn binary_expr(left: Expr, op: Math, right: Expr) -> Expr {
    Expr::Binary { operator: BinaryOp::Arithmetic(op), left: Box::new(left), right: Box::new(right) }
}

// Helper to create a binary relational expression
fn relational_expr(left: Expr, op: Relational, right: Expr) -> Expr {
    Expr::Binary { operator: BinaryOp::Relational(op), left: Box::new(left), right: Box::new(right) }
}

// Helper to create a unary expression
fn unary_expr(op: UnaryOp, right: Expr) -> Expr {
    Expr::Unary { operator: op, right: Box::new(right) }
}

fn arith(l: i64, op: Math, r: i64) -> Result<Value, EvalError> {
    Expr::eval_binary(Value::Integer(l), BinaryOp::Arithmetic(op), Value::Integer(r))
}

#[test]
fn test_expression_evaluation_integer_literal() {
    let ctx = create_test_context();
    let expr = int_expr(42);
    let result = expr.evaluate(&ctx).unwrap();
    assert_eq!(result, Value::Integer(42));
}

#[test]
fn test_expression_evaluation_string_literal() {
    let ctx = create_test_context();
    let expr = Expr::Literal(LiteralValue::String("\"Hello\"".to_string()));
    let result = expr.evaluate(&ctx).unwrap();
    assert_eq!(result, Value::String("\"Hello\"".to_string()));
}

#[test]
fn test_expression_evaluation_none_literal() {
    let ctx = create_test_context();
    let expr = Expr::Literal(LiteralValue::Empty);
    let result = expr.evaluate(&ctx).unwrap();
    assert_eq!(result, Value::Empty);
}

#[test]
fn test_expression_evaluation_variable_exists() {
    let mut ctx = create_test_context();
    ctx.variables.insert("X".to_string(), Value::Integer(100));

    let expr = var_expr("X");
    let result = expr.evaluate(&ctx).unwrap();
    assert_eq!(result, Value::Integer(100));
}

#[test]
fn test_expression_evaluation_variable_missing() {
    let ctx = create_test_context();
    // Missing variables default to 0 (BASIC standard)
    let expr = var_expr("NONEXISTENT");
    let result = expr.evaluate(&ctx).unwrap();
    assert_eq!(result, Value::Integer(0));
}

#[test]
fn test_arithmetic_operations() {
    let ctx = create_test_context();

    // Test all arithmetic operations
    let test_cases = vec![
        (Math::Plus, 10, 5, 15),
        (Math::Minus, 10, 5, 5),
        (Math::Times, 10, 5, 50),
        (Math::Division, 10, 5, 2),
        (Math::Modulo, 10, 3, 1),
        (Math::Power, 2, 3, 8), // 2**3 = 8
    ];

    for (op, left, right, expected) in test_cases {
        let expr = binary_expr(int_expr(left), op, int_expr(right));
        let result = expr.evaluate(&ctx).unwrap();
        assert_eq!(result, Value::Integer(expected), "Failed for {:?}", op);
    }
}

#[test]
fn test_division_by_zero() {
    let ctx = create_test_context();
    let expr = binary_expr(int_expr(10), Math::Division, int_expr(0));
    let result = expr.evaluate(&ctx);
    assert!(result.is_err());
    let err = result.unwrap_err();
    assert!(err.to_string().contains("Division by zero"));
}

#[test]
fn test_relational_operations_integers() {
    let ctx = create_test_context();

    let test_cases = vec![
        (Relational::Lt, 5, 10, true),
        (Relational::Lt, 10, 5, false),
        (Relational::LtEq, 5, 5, true),
        (Relational::LtEq, 5, 10, true),
        (Relational::Gt, 10, 5, true),
        (Relational::Gt, 5, 10, false),
        (Relational::GtEq, 5, 5, true),
        (Relational::GtEq, 10, 5, true),
        (Relational::Eq, 5, 5, true),
        (Relational::Eq, 5, 10, false),
        (Relational::NotEq, 5, 10, true),
        (Relational::NotEq, 5, 5, false),
    ];

    for (op, left, right, expected) in test_cases {
        let expr = relational_expr(int_expr(left), op, int_expr(right));
        let result = expr.evaluate(&ctx).unwrap();
        assert_eq!(result, Value::Boolean(expected), "Failed for {:?}", op);
    }
}

#[test]
fn test_relational_operations_strings() {
    let ctx = create_test_context();

    let test_cases = vec![
        (Relational::Eq, "abc", "abc", true),
        (Relational::Eq, "abc", "def", false),
        (Relational::NotEq, "abc", "def", true),
        (Relational::NotEq, "abc", "abc", false),
        (Relational::Lt, "abc", "def", true), // "abc" < "def"
        (Relational::Lt, "def", "abc", false),
        (Relational::Gt, "def", "abc", true), // "def" > "abc"
        (Relational::Gt, "abc", "def", false),
    ];

    for (op, left, right, expected) in test_cases {
        let left_expr = Expr::Literal(LiteralValue::String(format!("\"{}\"", left)));
        let right_expr = Expr::Literal(LiteralValue::String(format!("\"{}\"", right)));
        let expr = relational_expr(left_expr, op, right_expr);
        let result = expr.evaluate(&ctx).unwrap();
        assert_eq!(result, Value::Boolean(expected), "Failed for {:?}", op);
    }
}

#[test]
fn test_relational_operations_mixed_types() {
    let ctx = create_test_context();

    // Integer vs String comparisons
    let int_expr = int_expr(123);
    let str_expr = Expr::Literal(LiteralValue::String("\"abc\"".to_string()));

    // Eq and NotEq should work (return false/true respectively)
    let eq_expr = relational_expr(int_expr.clone(), Relational::Eq, str_expr.clone());
    let result = eq_expr.evaluate(&ctx).unwrap();
    assert_eq!(result, Value::Boolean(false));

    let ne_expr = relational_expr(int_expr, Relational::NotEq, str_expr);
    let result = ne_expr.evaluate(&ctx).unwrap();
    assert_eq!(result, Value::Boolean(true));
}

#[test]
fn test_relational_operations_mixed_types_error() {
    let ctx = create_test_context();

    // Integer vs String with < should error
    let int_expr = int_expr(123);
    let str_expr = Expr::Literal(LiteralValue::String("\"abc\"".to_string()));

    let lt_expr = relational_expr(int_expr, Relational::Lt, str_expr);
    let result = lt_expr.evaluate(&ctx);
    assert!(result.is_err());
    let err = result.unwrap_err();
    assert!(err.to_string().contains("Cannot compare integer to string"));
}

#[test]
fn test_unary_negate() {
    let ctx = create_test_context();
    let expr = unary_expr(UnaryOp::Negate, int_expr(5));
    let result = expr.evaluate(&ctx).unwrap();
    assert_eq!(result, Value::Integer(-5));
}

#[test]
fn test_unary_negate_twice() {
    let ctx = create_test_context();
    let inner = unary_expr(UnaryOp::Negate, int_expr(5));
    let expr = unary_expr(UnaryOp::Negate, inner);
    let result = expr.evaluate(&ctx).unwrap();
    assert_eq!(result, Value::Integer(5)); // -(-5) = 5
}

#[test]
fn test_grouping_expression() {
    let ctx = create_test_context();
    // (5 + 3) * 2
    let inner = binary_expr(int_expr(5), Math::Plus, int_expr(3));
    let grouping = Expr::Grouping { expression: Box::new(inner) };
    let expr = binary_expr(grouping, Math::Times, int_expr(2));

    let result = expr.evaluate(&ctx).unwrap();
    assert_eq!(result, Value::Integer(16)); // (5+3)*2 = 16
}

#[test]
fn test_complex_expression() {
    let mut ctx = create_test_context();
    ctx.variables.insert("A".to_string(), Value::Integer(10));
    ctx.variables.insert("B".to_string(), Value::Integer(3));

    // A * 2 + B ** 2
    let a_times_2 = binary_expr(var_expr("A"), Math::Times, int_expr(2));
    let b_squared = binary_expr(var_expr("B"), Math::Power, int_expr(2));
    let expr = binary_expr(a_times_2, Math::Plus, b_squared);

    let result = expr.evaluate(&ctx).unwrap();
    assert_eq!(result, Value::Integer(29)); // 10*2 + 3**2 = 20 + 9 = 29
}

#[test]
fn test_type_conversion_errors() {
    let ctx = create_test_context();

    // String in arithmetic should fail
    let str_expr = Expr::Literal(LiteralValue::String("\"hello\"".to_string()));
    let int_expr = int_expr(5);
    let add_expr = binary_expr(str_expr, Math::Plus, int_expr);

    let result = add_expr.evaluate(&ctx);
    assert!(result.is_err());
    let err = result.unwrap_err();
    assert!(err.to_string().contains("Type Mismatch"));
}

#[test]
fn test_value_display() {
    assert_eq!(Value::Integer(42).to_string(), "42");
    assert_eq!(Value::Boolean(true).to_string(), "true");
    assert_eq!(Value::Boolean(false).to_string(), "false");
    assert_eq!(Value::String("hello".to_string()).to_string(), "hello");
    assert_eq!(Value::Empty.to_string(), "\n");
}

#[test]
fn test_value_from_str() {
    assert_eq!(Value::from_str("42").unwrap(), Value::Integer(42));
    assert_eq!(Value::from_str("  -123  ").unwrap(), Value::Integer(-123));
    assert_eq!(Value::from_str("hello").unwrap(), Value::String("hello".to_string()));
    assert_eq!(Value::from_str("  test  ").unwrap(), Value::String("test".to_string()));
}

#[test]
fn test_value_text_of_extremes() {
    assert_eq!(Value::Integer(i64::MIN).to_string(), "-9223372036854775808");
    assert_eq!(Value::Integer(i64::MAX).to_string(), "9223372036854775807");
    assert_eq!(Value::Integer(0).to_string(), "0");
    assert_eq!(Value::Integer(-7).to_string(), "-7");
}

#[test]
fn test_from_str_edges() {
    assert_eq!(Value::from_str("+17").unwrap(), Value::Integer(17));
    assert_eq!(Value::from_str("-0").unwrap(), Value::Integer(0));
    assert_eq!(Value::from_str("007").unwrap(), Value::Integer(7));
    assert_eq!(Value::from_str("-9223372036854775808").unwrap(), Value::Integer(i64::MIN));
    assert_eq!(
        Value::from_str("9223372036854775808").unwrap(),
        Value::String("9223372036854775808".to_string())
    );
    assert_eq!(Value::from_str("-").unwrap(), Value::String("-".to_string()));
    assert_eq!(Value::from_str("+").unwrap(), Value::String("+".to_string()));
    assert_eq!(Value::from_str("1 2").unwrap(), Value::String("1 2".to_string()));
    assert_eq!(Value::from_str("\t\r\n 5\u{3000}").unwrap(), Value::Integer(5));
    assert_eq!(Value::from_str("   ").unwrap(), Value::String(String::new()));
    assert_eq!(Value::from_str("").unwrap(), Value::String(String::new()));
}

#[test]
fn test_integer_text_round_trip() {
    for i in [0i64, 1, -1, 42, -123, 1000000007, i64::MIN, i64::MAX] {
        let text = Value::Integer(i).to_string();
        assert_eq!(Value::from_str(&text).unwrap(), Value::Integer(i));
    }
}

#[test]
fn test_division_truncates_toward_zero() {
    assert_eq!(arith(7, Math::Division, 2).unwrap(), Value::Integer(3));
    assert_eq!(arith(-7, Math::Division, 2).unwrap(), Value::Integer(-3));
    assert_eq!(arith(7, Math::Division, -2).unwrap(), Value::Integer(-3));
    assert_eq!(arith(-7, Math::Division, -2).unwrap(), Value::Integer(3));
    assert_eq!(arith(-7, Math::Modulo, 2).unwrap(), Value::Integer(-1));
    assert_eq!(arith(7, Math::Modulo, -2).unwrap(), Value::Integer(1));
    assert_eq!(arith(-7, Math::Modulo, -2).unwrap(), Value::Integer(-1));
    // quotient * divisor + remainder == dividend
    for (l, r) in [(7i64, 2i64), (-7, 2), (7, -2), (-7, -2), (i64::MIN, 3), (13, 13)] {
        let q = match arith(l, Math::Division, r).unwrap() {
            Value::Integer(q) => q,
            _ => unreachable!(),
        };
        let m = match arith(l, Math::Modulo, r).unwrap() {
            Value::Integer(m) => m,
            _ => unreachable!(),
        };
        assert_eq!(q as i128 * r as i128 + m as i128, l as i128);
    }
}

#[test]
fn test_overflow_and_zero_divisors() {
    assert_eq!(arith(i64::MAX, Math::Plus, 1).unwrap_err(), EvalError::Overflow);
    assert_eq!(arith(i64::MIN, Math::Minus, 1).unwrap_err(), EvalError::Overflow);
    assert_eq!(arith(i64::MAX, Math::Times, 2).unwrap_err(), EvalError::Overflow);
    assert_eq!(arith(i64::MIN, Math::Division, -1).unwrap_err(), EvalError::Overflow);
    assert_eq!(arith(i64::MIN, Math::Modulo, -1).unwrap_err(), EvalError::Overflow);
    assert_eq!(arith(5, Math::Modulo, 0).unwrap_err(), EvalError::DivisionByZero);
    assert_eq!(arith(5, Math::Division, 0).unwrap_err(), EvalError::DivisionByZero);
    assert_eq!(Expr::eval_unary(UnaryOp::Negate, Value::Integer(i64::MIN)).unwrap_err(), EvalError::Overflow);
    assert_eq!(EvalError::Overflow.to_string(), "Integer overflow");
}

#[test]
fn test_power() {
    assert_eq!(arith(3, Math::Power, 0).unwrap(), Value::Integer(1));
    assert_eq!(arith(0, Math::Power, 0).unwrap(), Value::Integer(1));
    assert_eq!(arith(0, Math::Power, 5).unwrap(), Value::Integer(0));
    assert_eq!(arith(-2, Math::Power, 3).unwrap(), Value::Integer(-8));
    assert_eq!(arith(-2, Math::Power, 4).unwrap(), Value::Integer(16));
    assert_eq!(arith(2, Math::Power, 62).unwrap(), Value::Integer(1 << 62));
    assert_eq!(arith(2, Math::Power, 63).unwrap(), Value::Integer(i64::MAX));
    assert_eq!(arith(-2, Math::Power, 63).unwrap(), Value::Integer(i64::MIN));
    assert_eq!(arith(-2, Math::Power, 64).unwrap(), Value::Integer(i64::MAX));
    assert_eq!(arith(10, Math::Power, 100).unwrap(), Value::Integer(i64::MAX));
    assert_eq!(arith(-3, Math::Power, 1001).unwrap(), Value::Integer(i64::MIN));
    assert_eq!(arith(2, Math::Power, -1).unwrap(), Value::Integer(0));
    assert_eq!(arith(1, Math::Power, -5).unwrap(), Value::Integer(1));
    assert_eq!(arith(-1, Math::Power, -5).unwrap(), Value::Integer(-1));
    assert_eq!(arith(-1, Math::Power, -4).unwrap(), Value::Integer(1));
    assert_eq!(arith(0, Math::Power, -1).unwrap(), Value::Integer(i64::MAX));
}

#[test]
fn test_power_rounds_as_f64() {
    // 3 ** 34 is odd and above 2 ** 53: the tie rounds to the even neighbour.
    assert_eq!(arith(3, Math::Power, 34).unwrap(), Value::Integer(16677181699666568));
    assert_eq!(arith(-3, Math::Power, 35).unwrap(), Value::Integer(-50031545098999704));
    // A base above 2 ** 53 is rounded first.
    assert_eq!(arith(9007199254740993, Math::Power, 1).unwrap(), Value::Integer(9007199254740992));
    assert_eq!(arith(i64::MAX, Math::Power, 1).unwrap(), Value::Integer(i64::MAX));
    assert_eq!(arith(i64::MIN, Math::Power, 1).unwrap(), Value::Integer(i64::MIN));
    assert_eq!(arith(i64::MAX - 1000, Math::Power, 1).unwrap(), Value::Integer(9223372036854774784));
    assert_eq!(arith(i64::MAX - 100, Math::Power, 1).unwrap(), Value::Integer(i64::MAX));
    // 17 ** 13 is halfway between two f64 values; the even one is taken.
    assert_eq!(arith(17, Math::Power, 13).unwrap(), Value::Integer(9904578032905936));
}

#[test]
fn test_power_agrees_with_powf() {
    let mut bases: Vec<i64> = (-40..=40).collect();
    bases.extend([
        97, -97, 1001, -1001, 65535, 123456789, -987654321, 9007199254740993,
        -9007199254740995, 4611686018427387903, i64::MAX, i64::MIN,
    ]);
    // Where the power is exact in an f64 (or saturates), `powf` gives it on
    // every platform; elsewhere a `powf` that is not correctly rounded may
    // give the other f64 neighbour of the power.
    for &l in &bases {
        for r in -3i64..=70 {
            let float = (l as f64).powf(r as f64) as i64;
            let value = match arith(l, Math::Power, r).unwrap() {
                Value::Integer(v) => v,
                other => panic!("{l} ** {r} gave {other:?}"),
            };
            let magnitude = (value as i128).abs();
            if magnitude <= 1 << 53 || value == i64::MAX || value == i64::MIN {
                assert_eq!(value, float, "{l} ** {r}");
            } else {
                let spacing = 1i128 << (64 - 53 - (magnitude.leading_zeros() as i128 - 64));
                assert!((value as i128 - float as i128).abs() <= spacing, "{l} ** {r}");
            }
        }
    }
}

#[test]
fn test_string_order() {
    let rel = |a: &str, op: Relational, b: &str| {
        Expr::eval_binary(Value::String(a.to_string()), BinaryOp::Relational(op), Value::String(b.to_string()))
            .unwrap()
    };
    assert_eq!(rel("ab", Relational::Lt, "abc"), Value::Boolean(true));
    assert_eq!(rel("abc", Relational::LtEq, "abc"), Value::Boolean(true));
    assert_eq!(rel("B", Relational::Lt, "a"), Value::Boolean(true));
    assert_eq!(rel("", Relational::Lt, "a"), Value::Boolean(true));
    assert_eq!(rel("b", Relational::GtEq, "abc"), Value::Boolean(true));
    assert_eq!(rel("é", Relational::Gt, "z"), Value::Boolean(true));
}

#[test]
fn test_comparison_errors() {
    let r = Expr::eval_binary(Value::Boolean(true), BinaryOp::Relational(Relational::Eq), Value::Boolean(true));
    assert_eq!(r.unwrap_err(), EvalError::UnexpectedComparison);
    assert_eq!(EvalError::UnexpectedComparison.to_string(), "Unexpected comparison");
    let r = Expr::eval_binary(Value::String("1".to_string()), BinaryOp::Relational(Relational::Gt), Value::Integer(1));
    assert_eq!(r.unwrap_err(), EvalError::IntegerStringComparison);
    let r = Expr::eval_binary(Value::Empty, BinaryOp::Arithmetic(Math::Plus), Value::Integer(1));
    assert_eq!(r.unwrap_err(), EvalError::ExpectedInteger);
}

#[test]
fn test_value_conversions() {
    assert_eq!(Value::Integer(3).into_integer(), Ok(3));
    assert_eq!(Value::Boolean(true).into_integer(), Err(EvalError::ExpectedInteger));
    assert_eq!(Value::String("s".to_string()).into_string().unwrap(), "s");
    assert_eq!(Value::Integer(1).into_string().unwrap_err(), EvalError::ExpectedString);
    assert_eq!(Value::Boolean(false).into_boolean(), Ok(false));
    assert_eq!(Value::Empty.into_boolean(), Err(EvalError::ExpectedBoolean));
    assert_eq!(EvalError::ExpectedString.to_string(), "Type mismatch: Expected String");
    assert_eq!(EvalError::ExpectedBoolean.to_string(), "Type mismatch: Expected Boolean");
}

#[test]
fn test_first_error_wins() {
    let ctx = create_test_context();
    // (1 / 0) + "x": the left operand fails first.
    let left = binary_expr(int_expr(1), Math::Division, int_expr(0));
    let right = Expr::Literal(LiteralValue::String("x".to_string()));
    let expr = binary_expr(left, Math::Plus, right);
    assert_eq!(expr.evaluate(&ctx).unwrap_err(), EvalError::DivisionByZero);
}

#[test]
fn test_relations_are_complementary() {
    let pairs = vec![
        (Value::Integer(1), Value::Integer(2)),
        (Value::Integer(2), Value::Integer(2)),
        (Value::String("ab".to_string()), Value::String("abc".to_string())),
        (Value::String("b".to_string()), Value::String("a".to_string())),
        (Value::String("x".to_string()), Value::String("x".to_string())),
    ];
    let holds = |l: &Value, op: Relational, r: &Value| {
        match Expr::eval_binary(l.clone(), BinaryOp::Relational(op), r.clone()).unwrap() {
            Value::Boolean(b) => b,
            _ => unreachable!(),
        }
    };
    for (l, r) in pairs {
        assert_eq!(holds(&l, Relational::Lt, &r), !holds(&l, Relational::GtEq, &r));
        assert_eq!(holds(&l, Relational::Gt, &r), !holds(&l, Relational::LtEq, &r));
        assert_eq!(holds(&l, Relational::Eq, &r), !holds(&l, Relational::NotEq, &r));
        assert_eq!(holds(&l, Relational::Eq, &r), l == r);
        assert_eq!(holds(&l, Relational::Lt, &r), holds(&r, Relational::Gt, &l));
    }
}
