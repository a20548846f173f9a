//! Runtime values and the evaluation of expressions.
use vstd::prelude::*;
use crate::ast::{BinaryOp, Expr, ExprV, LiteralV, LiteralValue, UnaryOp};
use crate::names::NameMap;
use crate::text::{all_digits, digits_value, int_text, nat_text, is_digit, digit_value, string_from_str, i64_text, chars_of, string_of_range, push_char, digit_of, lemma_digits_step, lemma_digits_nonneg};
use crate::token::{Math, Relational};

verus! {

/// A runtime value.
#[derive(Debug, Clone, PartialEq)]
pub enum Value {
    Integer(i64),
    String(String),
    Boolean(bool),
    /// No value: what an empty `PRINT` prints.
    Empty,
}

/// The mathematical value of a runtime value.
pub enum ValueV {
    Integer(i64),
    String(Seq<char>),
    Boolean(bool),
    Empty,
}

impl View for Value {
    type V = ValueV;

    open spec fn view(&self) -> ValueV {
        match self {
            Value::Integer(i) => ValueV::Integer(*i),
            Value::String(s) => ValueV::String(s@),
            Value::Boolean(b) => ValueV::Boolean(*b),
            Value::Empty => ValueV::Empty,
        }
    }
}

/// Why an expression has no value.
#[derive(Debug, Clone, Copy, PartialEq, Eq, Structural)]
pub enum EvalError {
    /// An integer was expected.
    ExpectedInteger,
    /// A string was expected.
    ExpectedString,
    /// A boolean was expected.
    ExpectedBoolean,
    /// A division or a remainder by zero.
    DivisionByZero,
    /// An ordering between an integer and a string.
    IntegerStringComparison,
    /// A comparison of values that cannot be compared.
    UnexpectedComparison,
    /// An integer result outside the range of 64-bit integers.
    Overflow,
    /// The condition of an `IF` is not a boolean.
    IfConditionMismatch,
}

/// The message of an evaluation error.
pub open spec fn eval_error_text(e: EvalError) -> Seq<char> {
    match e {
        EvalError::ExpectedInteger => "Type Mismatch: Expected Integer"@,
        EvalError::ExpectedString => "Type mismatch: Expected String"@,
        EvalError::ExpectedBoolean => "Type mismatch: Expected Boolean"@,
        EvalError::DivisionByZero => "Division by zero"@,
        EvalError::IntegerStringComparison => "Cannot compare integer to string"@,
        EvalError::UnexpectedComparison => "Unexpected comparison"@,
        EvalError::Overflow => "Integer overflow"@,
        EvalError::IfConditionMismatch => "Type mismatch in IF condition"@,
    }
}

impl EvalError {
    /// The message of the error.
    pub fn to_string(&self) -> (r: String)
        ensures
            r@ == eval_error_text(*self),
    {
        match self {
            EvalError::ExpectedInteger => string_from_str("Type Mismatch: Expected Integer"),
            EvalError::ExpectedString => string_from_str("Type mismatch: Expected String"),
            EvalError::ExpectedBoolean => string_from_str("Type mismatch: Expected Boolean"),
            EvalError::DivisionByZero => string_from_str("Division by zero"),
            EvalError::IntegerStringComparison => string_from_str("Cannot compare integer to string"),
            EvalError::UnexpectedComparison => string_from_str("Unexpected comparison"),
            EvalError::Overflow => string_from_str("Integer overflow"),
            EvalError::IfConditionMismatch => string_from_str("Type mismatch in IF condition"),
        }
    }
}

// ---------------------------------------------------------------------------
// Arithmetic

/// An integer result, or `Overflow` when it does not fit in 64 bits.
pub open spec fn int_value(v: int) -> Result<ValueV, EvalError> {
    if i64::MIN <= v <= i64::MAX {
        Ok(ValueV::Integer(v as i64))
    } else {
        Err(EvalError::Overflow)
    }
}

/// Division truncated toward zero (`d != 0`).
pub open spec fn trunc_div(x: int, d: int) -> int {
    if x == 0 {
        0
    } else if x > 0 && d > 0 {
        x / d
    } else if x < 0 && d < 0 {
        (-x) / (-d)
    } else if x < 0 {
        -((-x) / d)
    } else {
        -(x / (-d))
    }
}

/// The remainder of division truncated toward zero: it has the sign of the
/// dividend (`d != 0`).
pub open spec fn trunc_rem(x: int, d: int) -> int {
    if x == 0 {
        0
    } else if x > 0 && d > 0 {
        x % d
    } else if x < 0 && d < 0 {
        -((-x) % (-d))
    } else if x < 0 {
        -((-x) % d)
    } else {
        x % (-d)
    }
}

/// `b` to the power `e`.
pub open spec fn ipow(b: int, e: nat) -> int
    decreases e,
{
    if e == 0 {
        1
    } else {
        b * ipow(b, (e - 1) as nat)
    }
}

/// The nearest 64-bit integer.
pub open spec fn clamp_i64(v: int) -> i64 {
    if v > i64::MAX {
        i64::MAX
    } else if v < i64::MIN {
        i64::MIN
    } else {
        v as i64
    }
}

/// The spacing of the values an `f64` holds near `v`: the first of `u`,
/// `2u`, `4u`, ... by which `v` divides into fewer than 53 bits.
pub open spec fn f64_spacing(v: nat, u: nat) -> nat
    decreases v + 1 - u,
{
    if u == 0 || v / u < 0x20_0000_0000_0000 {
        u
    } else {
        proof {
            lemma_double_below(v, u);
        }
        f64_spacing(v, 2 * u)
    }
}

/// The value an `f64` holds for `v`: `v` rounded to the nearest multiple of
/// its spacing, a tie going to the even multiple.
pub open spec fn f64_round(v: nat) -> nat {
    let u = f64_spacing(v, 1);
    let q = v / u;
    let rem = v % u;
    if 2 * rem < u || (2 * rem == u && q % 2 == 0) {
        q * u
    } else {
        (q + 1) * u
    }
}

/// The value an `f64` holds for the integer `v` (rounding is symmetric).
pub open spec fn f64_round_int(v: int) -> int {
    if v >= 0 {
        f64_round(v as nat) as int
    } else {
        -(f64_round((-v) as nat) as int)
    }
}

/// `l ** r` as `(l as f64).powf(r as f64) as i64` gives it, with `powf`
/// correctly rounded: the base as an `f64`, raised to the power, rounded
/// to an `f64`, then converted to an integer that saturates at the 64-bit
/// range (a power of magnitude at least 2^63 rounds to one too). With a
/// negative exponent the power is a fraction truncated toward zero, except
/// for the bases 1 and -1, and 0, whose power is infinite.
///
/// The precision of `powf` is left to the platform: one that is not
/// correctly rounded may give the other neighbour of a power that falls
/// halfway between two `f64` values, such as 17 ** 13. Both are within half
/// a spacing of the power (`law_f64_round_nearest`), and a power of at most
/// 2^53 is exact (`law_power_exact`).
pub open spec fn power(l: i64, r: i64) -> i64 {
    if r >= 0 {
        let p = ipow(f64_round_int(l as int), r as nat);
        if p >= 0x8000_0000_0000_0000 {
            i64::MAX
        } else if p <= -0x8000_0000_0000_0000 {
            i64::MIN
        } else {
            clamp_i64(f64_round_int(p))
        }
    } else if l == 1 {
        1
    } else if l == -1 {
        if r % 2 == 0 { 1i64 } else { -1i64 }
    } else if l == 0 {
        i64::MAX
    } else {
        0
    }
}

proof fn lemma_spacing_positive(v: nat, u: nat)
    requires
        u > 0,
    ensures
        f64_spacing(v, u) >= u,
    decreases v + 1 - u,
{
    if v / u >= 0x20_0000_0000_0000 {
        lemma_double_below(v, u);
        lemma_spacing_positive(v, 2 * u);
    }
}

/// The value an `f64` holds for `v` is a multiple of its spacing, at most
/// half the spacing away from `v`; integers up to 2^53 are held exactly.
pub proof fn law_f64_round_nearest(v: nat)
    ensures
        f64_spacing(v, 1) >= 1,
        f64_round(v) % f64_spacing(v, 1) == 0,
        2 * (f64_round(v) - v) <= f64_spacing(v, 1),
        2 * (v - f64_round(v)) <= f64_spacing(v, 1),
        v <= 0x20_0000_0000_0000 ==> f64_round(v) == v,
{
    lemma_spacing_positive(v, 1);
    let u = f64_spacing(v, 1);
    let q = v / u;
    let rem = v % u;
    vstd::arithmetic::div_mod::lemma_fundamental_div_mod(v as int, u as int);
    vstd::arithmetic::div_mod::lemma_mod_pos_bound(v as int, u as int);
    vstd::arithmetic::div_mod::lemma_mod_multiples_basic(q as int, u as int);
    vstd::arithmetic::div_mod::lemma_mod_multiples_basic((q + 1) as int, u as int);
    assert(u * q == q * u) by (nonlinear_arith);
    assert((q + 1) * u == q * u + u) by (nonlinear_arith);
    if v < 0x20_0000_0000_0000 {
        assert(f64_spacing(v, 1) == 1);
    } else if v == 0x20_0000_0000_0000 {
        assert(v / 2 == 0x10_0000_0000_0000);
        assert(f64_spacing(v, 2) == 2);
        assert(f64_spacing(v, 1) == 2);
    }
}

/// `**` with a base and a power of at most 2^53 in magnitude is exact.
pub proof fn law_power_exact(l: i64, r: i64)
    requires
        r >= 0,
        -0x20_0000_0000_0000 <= l <= 0x20_0000_0000_0000,
        -0x20_0000_0000_0000 <= ipow(l as int, r as nat) <= 0x20_0000_0000_0000,
    ensures
        power(l, r) == ipow(l as int, r as nat),
{
    if l >= 0 {
        law_f64_round_nearest(l as nat);
    } else {
        law_f64_round_nearest((-l) as nat);
    }
    let p = ipow(l as int, r as nat);
    if p >= 0 {
        law_f64_round_nearest(p as nat);
    } else {
        law_f64_round_nearest((-p) as nat);
    }
}

/// A quotient of at least two leaves room for twice the divisor.
pub proof fn lemma_double_below(v: nat, u: nat)
    requires
        u > 0,
        v / u >= 2,
    ensures
        2 * u <= v,
{
    vstd::arithmetic::div_mod::lemma_fundamental_div_mod(v as int, u as int);
    let q = v / u;
    assert(u * q >= 2 * u) by (nonlinear_arith)
        requires
            q >= 2,
            u > 0,
    ;
}

/// The value of an arithmetic operation on two integers.
pub open spec fn arith(m: Math, l: i64, r: i64) -> Result<ValueV, EvalError> {
    match m {
        Math::Plus => int_value(l + r),
        Math::Minus => int_value(l - r),
        Math::Times => int_value(l * r),
        Math::Division => if r == 0 {
            Err(EvalError::DivisionByZero)
        } else {
            int_value(trunc_div(l as int, r as int))
        },
        Math::Modulo => if r == 0 {
            Err(EvalError::DivisionByZero)
        } else if l == i64::MIN && r == -1 {
            Err(EvalError::Overflow)
        } else {
            Ok(ValueV::Integer(trunc_rem(l as int, r as int) as i64))
        },
        Math::Power => Ok(ValueV::Integer(power(l, r))),
    }
}

proof fn lemma_ipow_step(b: int, e: nat)
    ensures
        ipow(b, e + 1) == ipow(b, e) * b,
{
    assert(ipow(b, e + 1) == b * ipow(b, e));
    assert(b * ipow(b, e) == ipow(b, e) * b) by (nonlinear_arith);
}

proof fn lemma_ipow_mono(b: int, i: nat, j: nat)
    requires
        b >= 1,
        i <= j,
    ensures
        1 <= ipow(b, i) <= ipow(b, j),
    decreases j,
{
    if j > i {
        lemma_ipow_mono(b, i, (j - 1) as nat);
        let x = ipow(b, (j - 1) as nat);
        assert(b * x >= x) by (nonlinear_arith)
            requires
                b >= 1,
                x >= 1,
        ;
    } else if i > 0 {
        lemma_ipow_mono(b, (i - 1) as nat, (i - 1) as nat);
        let x = ipow(b, (i - 1) as nat);
        assert(b * x >= 1) by (nonlinear_arith)
            requires
                b >= 1,
                x >= 1,
        ;
    }
}

proof fn lemma_ipow_neg(b: int, e: nat)
    ensures
        ipow(-b, e) == if e % 2 == 0 { ipow(b, e) } else { -ipow(b, e) },
    decreases e,
{
    if e > 0 {
        lemma_ipow_neg(b, (e - 1) as nat);
        let x = ipow(b, (e - 1) as nat);
        assert((-b) * x == -(b * x)) by (nonlinear_arith);
        assert((-b) * (-x) == b * x) by (nonlinear_arith);
    }
}

proof fn lemma_ipow_zero(e: nat)
    requires
        e > 0,
    ensures
        ipow(0, e) == 0,
{
}

proof fn lemma_ipow_one(e: nat)
    ensures
        ipow(1, e) == 1,
    decreases e,
{
    if e > 0 {
        lemma_ipow_one((e - 1) as nat);
    }
}

/// The value an `f64` holds for `v`.
fn round_to_f64(v: u128) -> (w: u128)
    requires
        v <= 0x8000_0000_0000_0000,
    ensures
        w == f64_round(v as nat),
        w <= v + v + 1,
{
    let mut u: u128 = 1;
    while v / u >= 0x20_0000_0000_0000
        invariant
            0 < u <= v + 1,
            v <= 0x8000_0000_0000_0000,
            f64_spacing(v as nat, 1) == f64_spacing(v as nat, u as nat),
        decreases v + 1 - u,
    {
        proof {
            lemma_double_below(v as nat, u as nat);
        }
        u = 2 * u;
    }
    let q = v / u;
    let rem = v % u;
    proof {
        vstd::arithmetic::div_mod::lemma_fundamental_div_mod(v as int, u as int);
        vstd::arithmetic::div_mod::lemma_mod_pos_bound(v as int, u as int);
        assert(q * u == u * q) by (nonlinear_arith);
        assert((q + 1) * u == q * u + u) by (nonlinear_arith);
    }
    if 2 * rem < u || (2 * rem == u && q % 2 == 0) {
        q * u
    } else {
        (q + 1) * u
    }
}

/// `l ** r`, computed with integers.
fn pow_i64(l: i64, r: i64) -> (v: i64)
    ensures
        v == power(l, r),
{
    if r < 0 {
        return if l == 1 {
            1
        } else if l == -1 {
            if r % 2 == 0 { 1 } else { -1 }
        } else if l == 0 {
            i64::MAX
        } else {
            0
        };
    }
    let limit: u128 = 0x8000_0000_0000_0000u128;
    let a: u128 = if l < 0 {
        (0i128 - (l as i128)) as u128
    } else {
        l as u128
    };
    let b = round_to_f64(a);
    let ghost sb: int = f64_round_int(l as int);
    assert(sb == if l < 0 { -(b as int) } else { b as int });
    proof {
        if l < 0 {
            lemma_ipow_neg(b as int, r as nat);
        }
    }
    // The magnitude of the power, and its sign.
    let negative = l < 0 && r % 2 == 1;
    assert(ipow(sb, r as nat) == if negative { -ipow(b as int, r as nat) } else { ipow(b as int, r as nat) });
    let mag: u128 = if b == 0 {
        proof {
            if r > 0 {
                lemma_ipow_zero(r as nat);
            }
        }
        if r == 0 { 1 } else { 0 }
    } else if b == 1 {
        proof {
            lemma_ipow_one(r as nat);
        }
        1
    } else {
        let mut m: u128 = 1;
        let mut i: i64 = 0;
        while i < r && m <= limit
            invariant
                0 <= i <= r,
                2 <= b <= 2 * limit + 1,
                limit == 0x8000_0000_0000_0000u128,
                m == ipow(b as int, i as nat),
                1 <= m <= limit * (2 * limit + 1),
            decreases r - i,
        {
            proof {
                lemma_ipow_step(b as int, i as nat);
                assert(m * b <= limit * (2 * limit + 1)) by (nonlinear_arith)
                    requires
                        1 <= m <= limit,
                        b <= 2 * limit + 1,
                ;
                assert(m * b >= 1) by (nonlinear_arith)
                    requires
                        1 <= m,
                        2 <= b,
                ;
            }
            m = m * b;
            i = i + 1;
        }
        proof {
            lemma_ipow_mono(b as int, i as nat, r as nat);
        }
        if m > limit {
            // The whole power is larger still.
            limit + 1
        } else {
            m
        }
    };
    assert(mag <= limit ==> mag == ipow(b as int, r as nat));
    assert(mag > limit ==> ipow(b as int, r as nat) > limit);
    if mag >= limit {
        if negative { i64::MIN } else { i64::MAX }
    } else {
        let w = round_to_f64(mag);
        proof {
            assert(f64_round_int(ipow(sb, r as nat)) == if negative { -(w as int) } else { w as int });
        }
        if negative {
            if w >= limit { i64::MIN } else { (0i128 - (w as i128)) as i64 }
        } else if w >= limit {
            i64::MAX
        } else {
            w as i64
        }
    }
}

// ---------------------------------------------------------------------------
// Comparison of strings

/// `a` comes before `b` in the lexicographic order of characters.
pub open spec fn str_lt(a: Seq<char>, b: Seq<char>) -> bool
    decreases a.len(),
{
    if a.len() == 0 {
        b.len() > 0
    } else if b.len() == 0 {
        false
    } else if a[0] != b[0] {
        a[0] < b[0]
    } else {
        str_lt(a.drop_first(), b.drop_first())
    }
}

proof fn lemma_str_lt_skip(a: Seq<char>, b: Seq<char>, i: int)
    requires
        0 <= i <= a.len(),
        i <= b.len(),
        a.take(i) == b.take(i),
    ensures
        str_lt(a, b) == str_lt(a.skip(i), b.skip(i)),
    decreases i,
{
    if i > 0 {
        assert(a[0] == a.take(i)[0]);
        assert(b[0] == b.take(i)[0]);
        assert(a.drop_first().take(i - 1) =~= a.take(i).drop_first());
        assert(b.drop_first().take(i - 1) =~= b.take(i).drop_first());
        lemma_str_lt_skip(a.drop_first(), b.drop_first(), i - 1);
        assert(a.drop_first().skip(i - 1) =~= a.skip(i));
        assert(b.drop_first().skip(i - 1) =~= b.skip(i));
    } else {
        assert(a.skip(0) =~= a);
        assert(b.skip(0) =~= b);
    }
}

/// Whether `a` comes before `b`, and whether they are equal.
fn str_order(a: &str, b: &str) -> (r: (bool, bool))
    ensures
        r.0 == str_lt(a@, b@),
        r.1 == (a@ == b@),
{
    let x = chars_of(a);
    let y = chars_of(b);
    let mut i: usize = 0;
    while i < x.len() && i < y.len() && x[i] == y[i]
        invariant
            x@ == a@,
            y@ == b@,
            i <= x.len(),
            i <= y.len(),
            x@.take(i as int) == y@.take(i as int),
        decreases x.len() - i,
    {
        assert(x@.take(i + 1) =~= x@.take(i as int).push(x@[i as int]));
        assert(y@.take(i + 1) =~= y@.take(i as int).push(y@[i as int]));
        i = i + 1;
    }
    proof {
        lemma_str_lt_skip(x@, y@, i as int);
    }
    if i == x.len() && i == y.len() {
        assert(x@ =~= x@.take(i as int));
        assert(y@ =~= y@.take(i as int));
        (false, true)
    } else if i == x.len() {
        assert(x@.skip(i as int).len() == 0);
        assert(a@.len() != b@.len());
        (true, false)
    } else if i == y.len() {
        assert(y@.skip(i as int).len() == 0);
        assert(a@.len() != b@.len());
        (false, false)
    } else {
        assert(x@.skip(i as int)[0] == x@[i as int]);
        assert(y@.skip(i as int)[0] == y@[i as int]);
        assert(a@[i as int] != b@[i as int]);
        (x[i] < y[i], false)
    }
}

/// The truth of a relation between two integers.
pub open spec fn compare_ints(rel: Relational, l: i64, r: i64) -> bool {
    match rel {
        Relational::Lt => l < r,
        Relational::LtEq => l <= r,
        Relational::Gt => l > r,
        Relational::GtEq => l >= r,
        Relational::NotEq => l != r,
        Relational::Eq => l == r,
    }
}

/// The truth of a relation between two strings, ordered lexicographically.
pub open spec fn compare_strs(rel: Relational, a: Seq<char>, b: Seq<char>) -> bool {
    match rel {
        Relational::Lt => str_lt(a, b),
        Relational::LtEq => a == b || str_lt(a, b),
        Relational::Gt => str_lt(b, a),
        Relational::GtEq => a == b || str_lt(b, a),
        Relational::NotEq => a != b,
        Relational::Eq => a == b,
    }
}

/// The value of a relation between two values.
pub open spec fn relate(rel: Relational, left: ValueV, right: ValueV) -> Result<ValueV, EvalError> {
    match (left, right) {
        (ValueV::Integer(l), ValueV::Integer(r)) => Ok(ValueV::Boolean(compare_ints(rel, l, r))),
        (ValueV::String(a), ValueV::String(b)) => Ok(ValueV::Boolean(compare_strs(rel, a, b))),
        (ValueV::Integer(_), ValueV::String(_)) => mixed_relation(rel),
        (ValueV::String(_), ValueV::Integer(_)) => mixed_relation(rel),
        _ => Err(EvalError::UnexpectedComparison),
    }
}

/// An integer and a string are never equal and have no order.
pub open spec fn mixed_relation(rel: Relational) -> Result<ValueV, EvalError> {
    match rel {
        Relational::Eq => Ok(ValueV::Boolean(false)),
        Relational::NotEq => Ok(ValueV::Boolean(true)),
        _ => Err(EvalError::IntegerStringComparison),
    }
}

// ---------------------------------------------------------------------------
// Expressions

/// The value of a binary operation.
pub open spec fn binary_value(op: BinaryOp, left: ValueV, right: ValueV) -> Result<ValueV, EvalError> {
    match op {
        BinaryOp::Arithmetic(m) => match (left, right) {
            (ValueV::Integer(l), ValueV::Integer(r)) => arith(m, l, r),
            _ => Err(EvalError::ExpectedInteger),
        },
        BinaryOp::Relational(rel) => relate(rel, left, right),
    }
}

/// The value of a unary operation.
pub open spec fn unary_value(op: UnaryOp, v: ValueV) -> Result<ValueV, EvalError> {
    match v {
        ValueV::Integer(i) => int_value(-i),
        _ => Err(EvalError::ExpectedInteger),
    }
}

/// The value of a literal.
pub open spec fn literal_value(l: LiteralV) -> ValueV {
    match l {
        LiteralV::Integer(n) => ValueV::Integer(n as i64),
        LiteralV::String(s) => ValueV::String(s),
        LiteralV::Empty => ValueV::Empty,
    }
}

/// The value of an expression with the given variables: operands are
/// evaluated left to right and the first error wins; a variable that was
/// never set is 0.
pub open spec fn eval_expr(e: ExprV, vars: Map<Seq<char>, ValueV>) -> Result<ValueV, EvalError>
    decreases e,
{
    match e {
        ExprV::Binary { operator, left, right } => match eval_expr(*left, vars) {
            Err(x) => Err(x),
            Ok(l) => match eval_expr(*right, vars) {
                Err(x) => Err(x),
                Ok(r) => binary_value(operator, l, r),
            },
        },
        ExprV::Unary { operator, right } => match eval_expr(*right, vars) {
            Err(x) => Err(x),
            Ok(v) => unary_value(operator, v),
        },
        ExprV::Grouping { expression } => eval_expr(*expression, vars),
        ExprV::Literal(l) => Ok(literal_value(l)),
        ExprV::Variable { name } => if vars.contains_key(name) {
            Ok(vars[name])
        } else {
            Ok(ValueV::Integer(0))
        },
    }
}

/// The view of an evaluation result.
pub open spec fn value_result(r: Result<Value, EvalError>) -> Result<ValueV, EvalError> {
    match r {
        Ok(v) => Ok(v@),
        Err(e) => Err(e),
    }
}

impl Value {
    /// A copy of the value.
    pub fn duplicate(&self) -> (r: Value)
        ensures
            r@ == self@,
    {
        match self {
            Value::Integer(i) => Value::Integer(*i),
            Value::String(s) => Value::String(s.clone()),
            Value::Boolean(b) => Value::Boolean(*b),
            Value::Empty => Value::Empty,
        }
    }

    /// The integer of an integer value.
    pub fn into_integer(self) -> (r: Result<i64, EvalError>)
        ensures
            match self@ {
                ValueV::Integer(i) => r == Ok::<i64, EvalError>(i),
                _ => r == Err::<i64, EvalError>(EvalError::ExpectedInteger),
            },
    {
        match self {
            Value::Integer(i) => Ok(i),
            _ => Err(EvalError::ExpectedInteger),
        }
    }

    /// The text of a string value.
    pub fn into_string(self) -> (r: Result<String, EvalError>)
        ensures
            match self@ {
                ValueV::String(s) => r is Ok && r->Ok_0@ == s,
                _ => r == Err::<String, EvalError>(EvalError::ExpectedString),
            },
    {
        match self {
            Value::String(s) => Ok(s),
            _ => Err(EvalError::ExpectedString),
        }
    }

    /// The truth of a boolean value.
    pub fn into_boolean(self) -> (r: Result<bool, EvalError>)
        ensures
            match self@ {
                ValueV::Boolean(b) => r == Ok::<bool, EvalError>(b),
                _ => r == Err::<bool, EvalError>(EvalError::ExpectedBoolean),
            },
    {
        match self {
            Value::Boolean(b) => Ok(b),
            _ => Err(EvalError::ExpectedBoolean),
        }
    }
}

impl Expr {
    /// The value of the expression with the variables of `context`.
    pub fn evaluate(&self, context: &Context) -> (r: Result<Value, EvalError>)
        ensures
            value_result(r) == eval_expr(self@, context.variables@),
        decreases self,
    {
        match self {
            Expr::Binary { operator, left, right } => {
                let l = match left.evaluate(context) {
                    Ok(v) => v,
                    Err(e) => return Err(e),
                };
                let r = match right.evaluate(context) {
                    Ok(v) => v,
                    Err(e) => return Err(e),
                };
                Expr::eval_binary(l, *operator, r)
            },
            Expr::Unary { operator, right } => {
                let v = match right.evaluate(context) {
                    Ok(v) => v,
                    Err(e) => return Err(e),
                };
                Expr::eval_unary(*operator, v)
            },
            Expr::Grouping { expression } => expression.evaluate(context),
            Expr::Literal(literal) => Ok(Expr::eval_literal(literal)),
            Expr::Variable { name } => match context.variables.get(name.as_str()) {
                Some(v) => Ok(v.duplicate()),
                None => Ok(Value::Integer(0)),
            },
        }
    }

    /// The value of a literal.
    pub fn eval_literal(literal: &LiteralValue) -> (v: Value)
        ensures
            v@ == literal_value(literal@),
    {
        match literal {
            LiteralValue::Integer(i) => Value::Integer(*i as i64),
            LiteralValue::String(s) => Value::String(s.clone()),
            LiteralValue::Empty => Value::Empty,
        }
    }

    /// The value of an arithmetic operation on two integers.
    fn eval_arith(math: Math, l: i64, r: i64) -> (v: Result<Value, EvalError>)
        ensures
            value_result(v) == arith(math, l, r),
    {
        match math {
            Math::Plus => match l.checked_add(r) {
                Some(x) => Ok(Value::Integer(x)),
                None => Err(EvalError::Overflow),
            },
            Math::Minus => match l.checked_sub(r) {
                Some(x) => Ok(Value::Integer(x)),
                None => Err(EvalError::Overflow),
            },
            Math::Times => match l.checked_mul(r) {
                Some(x) => Ok(Value::Integer(x)),
                None => Err(EvalError::Overflow),
            },
            Math::Division => {
                if r == 0 {
                    return Err(EvalError::DivisionByZero);
                }
                match l.checked_div(r) {
                    Some(x) => Ok(Value::Integer(x)),
                    None => Err(EvalError::Overflow),
                }
            },
            Math::Modulo => {
                if r == 0 {
                    return Err(EvalError::DivisionByZero);
                }
                match l.checked_rem(r) {
                    Some(x) => Ok(Value::Integer(x)),
                    None => Err(EvalError::Overflow),
                }
            },
            Math::Power => Ok(Value::Integer(pow_i64(l, r))),
        }
    }

    /// The value of a binary operation.
    pub fn eval_binary(left: Value, op: BinaryOp, right: Value) -> (v: Result<Value, EvalError>)
        ensures
            value_result(v) == binary_value(op, left@, right@),
    {
        match op {
            BinaryOp::Arithmetic(math) => {
                let l = match left.into_integer() {
                    Ok(i) => i,
                    Err(e) => return Err(e),
                };
                let r = match right.into_integer() {
                    Ok(i) => i,
                    Err(e) => return Err(e),
                };
                Expr::eval_arith(math, l, r)
            },
            BinaryOp::Relational(relational) => match (left, right) {
                (Value::Integer(l), Value::Integer(r)) => {
                    let b = match relational {
                        Relational::Eq => l == r,
                        Relational::NotEq => l != r,
                        Relational::Lt => l < r,
                        Relational::LtEq => l <= r,
                        Relational::Gt => l > r,
                        Relational::GtEq => l >= r,
                    };
                    Ok(Value::Boolean(b))
                },
                (Value::Integer(_), Value::String(_)) | (Value::String(_), Value::Integer(_)) => {
                    match relational {
                        Relational::Eq => Ok(Value::Boolean(false)),
                        Relational::NotEq => Ok(Value::Boolean(true)),
                        _ => Err(EvalError::IntegerStringComparison),
                    }
                },
                (Value::String(l), Value::String(r)) => {
                    let (lt, eq) = str_order(l.as_str(), r.as_str());
                    let (gt, _) = str_order(r.as_str(), l.as_str());
                    let b = match relational {
                        Relational::Eq => eq,
                        Relational::NotEq => !eq,
                        Relational::Lt => lt,
                        Relational::LtEq => lt || eq,
                        Relational::Gt => gt,
                        Relational::GtEq => gt || eq,
                    };
                    Ok(Value::Boolean(b))
                },
                _ => Err(EvalError::UnexpectedComparison),
            },
        }
    }

    /// The value of a unary operation.
    pub fn eval_unary(op: UnaryOp, right: Value) -> (v: Result<Value, EvalError>)
        ensures
            value_result(v) == unary_value(op, right@),
    {
        let r = match right.into_integer() {
            Ok(i) => i,
            Err(e) => return Err(e),
        };
        match op {
            UnaryOp::Negate => if r == i64::MIN {
                Err(EvalError::Overflow)
            } else {
                Ok(Value::Integer(-r))
            },
        }
    }
}

// ---------------------------------------------------------------------------
// Values as text

/// The text of a value: `true` or `false` for booleans, and a newline for
/// no value.
pub open spec fn value_text(v: ValueV) -> Seq<char> {
    match v {
        ValueV::Integer(i) => int_text(i as int),
        ValueV::Boolean(b) => if b { "true"@ } else { "false"@ },
        ValueV::String(s) => s,
        ValueV::Empty => seq!['\n'],
    }
}

/// A white-space character (Unicode `White_Space`).
pub open spec fn is_space(c: char) -> bool {
    ||| c == '\t'
    ||| c == '\n'
    ||| c == '\u{0B}'
    ||| c == '\u{0C}'
    ||| c == '\r'
    ||| c == ' '
    ||| c == '\u{85}'
    ||| c == '\u{A0}'
    ||| c == '\u{1680}'
    ||| ('\u{2000}' <= c && c <= '\u{200A}')
    ||| c == '\u{2028}'
    ||| c == '\u{2029}'
    ||| c == '\u{202F}'
    ||| c == '\u{205F}'
    ||| c == '\u{3000}'
}

/// The text without its leading white space.
pub open spec fn trim_front(s: Seq<char>) -> Seq<char>
    decreases s.len(),
{
    if s.len() > 0 && is_space(s[0]) {
        trim_front(s.drop_first())
    } else {
        s
    }
}

/// The text without its trailing white space.
pub open spec fn trim_back(s: Seq<char>) -> Seq<char>
    decreases s.len(),
{
    if s.len() > 0 && is_space(s.last()) {
        trim_back(s.drop_last())
    } else {
        s
    }
}

/// The text without leading and trailing white space.
pub open spec fn trim(s: Seq<char>) -> Seq<char> {
    trim_back(trim_front(s))
}

/// The length of the sign of a number: one for a leading `-` or `+`.
pub open spec fn sign_len(t: Seq<char>) -> int {
    if t.len() > 0 && (t[0] == '-' || t[0] == '+') { 1 } else { 0 }
}

/// The 64-bit integer that the text is written as: an optional sign, then
/// decimal digits only.
pub open spec fn parse_int(t: Seq<char>) -> Option<i64> {
    let digits = t.skip(sign_len(t));
    if digits.len() == 0 || !all_digits(digits) {
        None
    } else {
        let m = digits_value(digits);
        let v = if t[0] == '-' { -m } else { m };
        if i64::MIN <= v <= i64::MAX {
            Some(v as i64)
        } else {
            None
        }
    }
}

/// The value that a text of input stands for: the trimmed text as an integer
/// where it is one, else the trimmed text as a string.
pub open spec fn parse_value(s: Seq<char>) -> ValueV {
    match parse_int(trim(s)) {
        Some(i) => ValueV::Integer(i),
        None => ValueV::String(trim(s)),
    }
}

pub(crate) fn is_space_char(c: char) -> (b: bool)
    ensures
        b == is_space(c),
{
    c == '\t' || c == '\n' || c == '\u{0B}' || c == '\u{0C}' || c == '\r' || c == ' ' || c
        == '\u{85}' || c == '\u{A0}' || c == '\u{1680}' || ('\u{2000}' <= c && c <= '\u{200A}')
        || c == '\u{2028}' || c == '\u{2029}' || c == '\u{202F}' || c == '\u{205F}' || c
        == '\u{3000}'
}

/// The bounds `lo..hi` of the text without its surrounding white space.
pub(crate) fn trim_bounds(v: &Vec<char>) -> (r: (usize, usize))
    ensures
        r.0 <= r.1 <= v.len(),
        v@.subrange(r.0 as int, r.1 as int) == trim(v@),
{
    let n = v.len();
    let mut lo: usize = 0;
    assert(v@.subrange(0, n as int) =~= v@);
    while lo < n && is_space_char(v[lo])
        invariant
            n == v.len(),
            lo <= n,
            trim_front(v@) == trim_front(v@.subrange(lo as int, n as int)),
        decreases n - lo,
    {
        assert(v@.subrange(lo as int, n as int).drop_first() =~= v@.subrange(lo + 1, n as int));
        lo = lo + 1;
    }
    let mut hi: usize = n;
    while hi > lo && is_space_char(v[hi - 1])
        invariant
            n == v.len(),
            lo <= hi <= n,
            trim(v@) == trim_back(v@.subrange(lo as int, hi as int)),
        decreases hi,
    {
        assert(v@.subrange(lo as int, hi as int).drop_last() =~= v@.subrange(lo as int, hi - 1));
        hi = hi - 1;
    }
    (lo, hi)
}

/// The integer written in `v[lo..hi]`, as `parse_int` reads it.
pub(crate) fn parse_int_chars(v: &Vec<char>, lo: usize, hi: usize) -> (r: Option<i64>)
    requires
        lo <= hi <= v.len(),
    ensures
        r == parse_int(v@.subrange(lo as int, hi as int)),
{
    let ghost t = v@.subrange(lo as int, hi as int);
    let negative = lo < hi && v[lo] == '-';
    let signed = lo < hi && (v[lo] == '-' || v[lo] == '+');
    let start: usize = if signed { lo + 1 } else { lo };
    assert(t.skip(sign_len(t)) =~= v@.subrange(start as int, hi as int));
    if start == hi {
        return None;
    }
    let limit: u128 = 0x8000_0000_0000_0000u128;
    let mut acc: u128 = 0;
    let mut big = false;
    let mut j: usize = start;
    while j < hi
        invariant
            lo <= start <= j <= hi <= v.len(),
            limit == 0x8000_0000_0000_0000u128,
            t == v@.subrange(lo as int, hi as int),
            t.skip(sign_len(t)) == v@.subrange(start as int, hi as int),
            negative == (t.len() > 0 && t[0] == '-'),
            all_digits(v@.subrange(start as int, j as int)),
            !big ==> acc as int == digits_value(v@.subrange(start as int, j as int)) && acc <= limit,
            big ==> digits_value(v@.subrange(start as int, j as int)) > limit,
        decreases hi - j,
    {
        let c = v[j];
        if !('0' <= c && c <= '9') {
            assert(!is_digit(v@.subrange(start as int, hi as int)[j - start]));
            return None;
        }
        let d = digit_of(c);
        proof {
            lemma_digits_step(v@, start as int, j as int);
            lemma_digits_nonneg(v@.subrange(start as int, j as int));
            assert(all_digits(v@.subrange(start as int, j + 1))) by {
                assert forall|k: int| 0 <= k < j + 1 - start implies #[trigger] is_digit(
                    v@.subrange(start as int, j + 1)[k],
                ) by {
                    if k < j - start {
                        assert(v@.subrange(start as int, j + 1)[k] == v@.subrange(
                            start as int,
                            j as int,
                        )[k]);
                    }
                }
            }
        }
        if !big {
            let next = acc * 10 + (d as u128);
            if next > limit {
                big = true;
            } else {
                acc = next;
            }
        }
        j = j + 1;
    }
    if big {
        None
    } else if negative {
        Some((0i128 - (acc as i128)) as i64)
    } else if acc < limit {
        Some(acc as i64)
    } else {
        None
    }
}

impl Value {
    /// The text of the value, as `PRINT` shows it.
    pub fn to_string(&self) -> (r: String)
        ensures
            r@ == value_text(self@),
    {
        match self {
            Value::Integer(i) => i64_text(*i),
            Value::Boolean(b) => if *b {
                string_from_str("true")
            } else {
                string_from_str("false")
            },
            Value::String(s) => s.clone(),
            Value::Empty => {
                let mut r = String::new();
                push_char(&mut r, '\n');
                r
            },
        }
    }

    /// The value that a line of input stands for: surrounding white space is
    /// dropped; an integer stays an integer, any other text is a string.
    pub fn from_str(s: &str) -> (r: Result<Value, EvalError>)
        ensures
            r is Ok,
            r->Ok_0@ == parse_value(s@),
    {
        let v = chars_of(s);
        let (lo, hi) = trim_bounds(&v);
        match parse_int_chars(&v, lo, hi) {
            Some(i) => Ok(Value::Integer(i)),
            None => Ok(Value::String(string_of_range(&v, lo, hi))),
        }
    }
}

proof fn lemma_digit_char(d: int)
    requires
        0 <= d < 10,
    ensures
        is_digit(crate::text::digit_char(d)),
        digit_value(crate::text::digit_char(d)) == d,
{
    assert('0' as int == 48);
    assert('9' as int == 57);
}

proof fn lemma_nat_text(n: nat)
    ensures
        nat_text(n).len() >= 1,
        all_digits(nat_text(n)),
        digits_value(nat_text(n)) == n,
    decreases n,
{
    lemma_digit_char((n % 10) as int);
    if n >= 10 {
        lemma_nat_text(n / 10);
        let t = nat_text(n / 10);
        let u = nat_text(n);
        assert(u == t.push(crate::text::digit_char((n % 10) as int)));
        assert(u.drop_last() =~= t);
        assert forall|k: int| 0 <= k < u.len() implies #[trigger] is_digit(u[k]) by {
            if k < t.len() {
                assert(u[k] == t[k]);
            }
        }
        assert(digits_value(u) == digits_value(t) * 10 + digit_value(u.last()));
    } else {
        let u = nat_text(n);
        assert(u.drop_last() =~= Seq::<char>::empty());
        assert(digits_value(u) == digits_value(u.drop_last()) * 10 + digit_value(u.last()));
    }
}

/// Printing an integer and reading the text back as input gives the same
/// integer.
pub proof fn law_integer_text_round_trip(i: i64)
    ensures
        parse_value(value_text(ValueV::Integer(i))) == ValueV::Integer(i),
{
    let t = int_text(i as int);
    if i < 0 {
        let n = (-(i as int)) as nat;
        lemma_nat_text(n);
        assert(t[0] == '-');
        assert(t.last() == nat_text(n).last());
        assert(is_digit(nat_text(n)[nat_text(n).len() - 1]));
        assert(t.skip(1) =~= nat_text(n));
    } else {
        lemma_nat_text(i as nat);
        assert(is_digit(t[0]));
        assert(is_digit(t[t.len() - 1]));
        assert(t.skip(0) =~= t);
    }
    assert(trim_front(t) == t);
    assert(trim_back(t) == t);
}

// ---------------------------------------------------------------------------
// Laws of evaluation

proof fn lemma_euclid(y: int, e: int)
    requires
        y >= 0,
        e >= 1,
    ensures
        y == e * (y / e) + y % e,
        0 <= y % e < e,
        0 <= y / e <= y,
        e >= 2 ==> y / e <= y / 2,
{
    vstd::arithmetic::div_mod::lemma_fundamental_div_mod(y, e);
    vstd::arithmetic::div_mod::lemma_mod_pos_bound(y, e);
    vstd::arithmetic::div_mod::lemma_div_is_ordered_by_denominator(y, 1, e);
    vstd::arithmetic::div_mod::lemma_div_pos_is_pos(y, e);
    if e >= 2 {
        vstd::arithmetic::div_mod::lemma_div_is_ordered_by_denominator(y, 2, e);
    }
}

/// Division truncates toward zero and the remainder makes up the rest: the
/// quotient times the divisor plus the remainder is the dividend; the
/// remainder is smaller than the divisor and has the sign of the dividend.
pub proof fn law_division_and_remainder(l: i64, r: i64)
    requires
        r != 0,
        !(l == i64::MIN && r == -1),
    ensures
        ({
            let q = trunc_div(l as int, r as int);
            let m = trunc_rem(l as int, r as int);
            &&& arith(Math::Division, l, r) == Ok::<ValueV, EvalError>(ValueV::Integer(q as i64))
            &&& arith(Math::Modulo, l, r) == Ok::<ValueV, EvalError>(ValueV::Integer(m as i64))
            &&& i64::MIN <= q <= i64::MAX
            &&& q * r + m == l
            &&& (l >= 0 ==> 0 <= m)
            &&& (l <= 0 ==> m <= 0)
            &&& (r > 0 ==> -r < m < r)
            &&& (r < 0 ==> r < m < -r)
        }),
{
    let x = l as int;
    let d = r as int;
    let y = if x < 0 { -x } else { x };
    let e = if d < 0 { -d } else { d };
    lemma_euclid(y, e);
    let q0 = y / e;
    let r0 = y % e;
    assert(e * q0 == q0 * e) by (nonlinear_arith);
    if x == 0 {
    } else if x > 0 && d > 0 {
    } else if x < 0 && d < 0 {
        assert(q0 * d == -(q0 * e)) by (nonlinear_arith)
            requires
                e == -d,
        ;
    } else if x < 0 {
        assert((-q0) * d == -(q0 * e)) by (nonlinear_arith)
            requires
                e == d,
        ;
    } else {
        assert((-q0) * d == q0 * e) by (nonlinear_arith)
            requires
                e == -d,
        ;
    }
}

/// `a` and `b` are equal, or exactly one comes before the other.
pub proof fn lemma_str_order(a: Seq<char>, b: Seq<char>)
    ensures
        str_lt(a, b) || a == b || str_lt(b, a),
        !(str_lt(a, b) && str_lt(b, a)),
        !(str_lt(a, b) && a == b),
    decreases a.len(),
{
    if a.len() > 0 && b.len() > 0 && a[0] == b[0] {
        lemma_str_order(a.drop_first(), b.drop_first());
        if a.drop_first() == b.drop_first() {
            assert(a =~= seq![a[0]] + a.drop_first());
            assert(b =~= seq![b[0]] + b.drop_first());
        }
    } else if a.len() == 0 && b.len() == 0 {
        assert(a =~= b);
    }
}

/// The truth of a relation between two values of the same type.
pub open spec fn holds(rel: Relational, l: ValueV, r: ValueV) -> bool {
    relate(rel, l, r) == Ok::<ValueV, EvalError>(ValueV::Boolean(true))
}

/// Between two integers or two strings, each relation has a value, `=`
/// holds exactly of equal values, and `<` and `>=`, `>` and `<=`, `=` and
/// `<>` are each other's negation.
pub proof fn law_relations_complementary(l: ValueV, r: ValueV)
    requires
        (l is Integer && r is Integer) || (l is String && r is String),
    ensures
        relate(Relational::Lt, l, r) is Ok,
        relate(Relational::LtEq, l, r) is Ok,
        relate(Relational::Gt, l, r) is Ok,
        relate(Relational::GtEq, l, r) is Ok,
        relate(Relational::Eq, l, r) is Ok,
        relate(Relational::NotEq, l, r) is Ok,
        holds(Relational::Eq, l, r) == (l == r),
        holds(Relational::Lt, l, r) == !holds(Relational::GtEq, l, r),
        holds(Relational::Gt, l, r) == !holds(Relational::LtEq, l, r),
        holds(Relational::Eq, l, r) == !holds(Relational::NotEq, l, r),
        holds(Relational::Lt, l, r) == holds(Relational::Gt, r, l),
{
    match (l, r) {
        (ValueV::String(a), ValueV::String(b)) => {
            lemma_str_order(a, b);
        },
        _ => {},
    }
}

/// Sums, differences and products of integers are exact where they fit in
/// 64 bits and an overflow error where they do not; the difference plus the
/// right operand gives back the left one.
pub proof fn law_integer_arithmetic(l: i64, r: i64)
    ensures
        i64::MIN <= l + r <= i64::MAX ==> binary_value(
            BinaryOp::Arithmetic(Math::Plus),
            ValueV::Integer(l),
            ValueV::Integer(r),
        ) == Ok::<ValueV, EvalError>(ValueV::Integer((l + r) as i64)),
        i64::MIN <= l - r <= i64::MAX ==> binary_value(
            BinaryOp::Arithmetic(Math::Minus),
            ValueV::Integer(l),
            ValueV::Integer(r),
        ) == Ok::<ValueV, EvalError>(ValueV::Integer((l - r) as i64)),
        i64::MIN <= l * r <= i64::MAX ==> binary_value(
            BinaryOp::Arithmetic(Math::Times),
            ValueV::Integer(l),
            ValueV::Integer(r),
        ) == Ok::<ValueV, EvalError>(ValueV::Integer((l * r) as i64)),
        !(i64::MIN <= l + r <= i64::MAX) ==> binary_value(
            BinaryOp::Arithmetic(Math::Plus),
            ValueV::Integer(l),
            ValueV::Integer(r),
        ) == Err::<ValueV, EvalError>(EvalError::Overflow),
        !(i64::MIN <= l - r <= i64::MAX) ==> binary_value(
            BinaryOp::Arithmetic(Math::Minus),
            ValueV::Integer(l),
            ValueV::Integer(r),
        ) == Err::<ValueV, EvalError>(EvalError::Overflow),
        !(i64::MIN <= l * r <= i64::MAX) ==> binary_value(
            BinaryOp::Arithmetic(Math::Times),
            ValueV::Integer(l),
            ValueV::Integer(r),
        ) == Err::<ValueV, EvalError>(EvalError::Overflow),
        binary_value(BinaryOp::Arithmetic(Math::Minus), ValueV::Integer(l), ValueV::Integer(r)) matches Ok(
            ValueV::Integer(d),
        ) ==> d + r == l,
{
}

/// Negation is exact for every integer but the smallest, whose negation
/// does not fit.
pub proof fn law_negation(i: i64)
    ensures
        i != i64::MIN ==> unary_value(UnaryOp::Negate, ValueV::Integer(i)) == Ok::<ValueV, EvalError>(
            ValueV::Integer((-i) as i64),
        ),
        i == i64::MIN ==> unary_value(UnaryOp::Negate, ValueV::Integer(i)) == Err::<ValueV, EvalError>(
            EvalError::Overflow,
        ),
{
}

/// The relations between integers follow the signed order of integers.
pub proof fn law_integer_relations(l: i64, r: i64)
    ensures
        binary_value(BinaryOp::Relational(Relational::Lt), ValueV::Integer(l), ValueV::Integer(r))
            == Ok::<ValueV, EvalError>(ValueV::Boolean(l < r)),
        binary_value(BinaryOp::Relational(Relational::LtEq), ValueV::Integer(l), ValueV::Integer(r))
            == Ok::<ValueV, EvalError>(ValueV::Boolean(l <= r)),
        binary_value(BinaryOp::Relational(Relational::Gt), ValueV::Integer(l), ValueV::Integer(r))
            == Ok::<ValueV, EvalError>(ValueV::Boolean(l > r)),
        binary_value(BinaryOp::Relational(Relational::GtEq), ValueV::Integer(l), ValueV::Integer(r))
            == Ok::<ValueV, EvalError>(ValueV::Boolean(l >= r)),
        binary_value(BinaryOp::Relational(Relational::Eq), ValueV::Integer(l), ValueV::Integer(r))
            == Ok::<ValueV, EvalError>(ValueV::Boolean(l == r)),
        binary_value(BinaryOp::Relational(Relational::NotEq), ValueV::Integer(l), ValueV::Integer(r))
            == Ok::<ValueV, EvalError>(ValueV::Boolean(l != r)),
{
}

/// Strings are ordered by their first differing character, and a proper
/// prefix comes before the longer string.
pub proof fn law_string_order(a: Seq<char>, b: Seq<char>, k: int)
    requires
        0 <= k <= a.len(),
        k <= b.len(),
        a.take(k) == b.take(k),
    ensures
        k < a.len() && k < b.len() && a[k] < b[k] ==> binary_value(
            BinaryOp::Relational(Relational::Lt),
            ValueV::String(a),
            ValueV::String(b),
        ) == Ok::<ValueV, EvalError>(ValueV::Boolean(true)),
        k < a.len() && k < b.len() && a[k] < b[k] ==> binary_value(
            BinaryOp::Relational(Relational::Gt),
            ValueV::String(a),
            ValueV::String(b),
        ) == Ok::<ValueV, EvalError>(ValueV::Boolean(false)),
        k == a.len() && k < b.len() ==> binary_value(
            BinaryOp::Relational(Relational::Lt),
            ValueV::String(a),
            ValueV::String(b),
        ) == Ok::<ValueV, EvalError>(ValueV::Boolean(true)),
{
    lemma_str_lt_skip(a, b, k);
    lemma_str_order(a, b);
    if k < a.len() && k < b.len() {
        assert(a.skip(k)[0] == a[k]);
        assert(b.skip(k)[0] == b[k]);
    }
}

/// The variables of a program run.
#[derive(Debug)]
pub struct Context {
    pub variables: NameMap<Value>,
}

impl Context {
    /// A context without variables.
    pub fn new() -> (c: Context)
        ensures
            c.variables@ == Map::<Seq<char>, ValueV>::empty(),
    {
        Context { variables: NameMap::new() }
    }
}

impl Default for Context {
    fn default() -> (c: Context)
        ensures
            c.variables@ == Map::<Seq<char>, ValueV>::empty(),
    {
        Context::new()
    }
}

} // verus!
