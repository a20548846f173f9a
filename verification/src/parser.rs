//! A recursive descent parser: a sequence of tokens becomes a sequence of
//! lines.
//!
//! Grammar of expressions:
//! ```text
//! expression -> term
//! term       -> factor ( ( "-" | "+" | "MOD" ) factor )*   (left associative)
//! factor     -> power ( ( "/" | "*" ) power )*            (left associative)
//! power      -> unary ( "**" power )?                     (right associative)
//! unary      -> "-" unary | primary
//! primary    -> INTEGER | STRING | IDENTIFIER | "(" expression ")"
//! ```
use vstd::prelude::*;
use std::collections::VecDeque;
use crate::ast::{BinaryOp, Expr, ExprV, Line, LineV, LiteralV, LiteralValue, Stmt, StmtV, UnaryOp};
use crate::token::{Keyword, KeywordV, Math, Relational, Side, Token, TokenV};
use crate::text::{append_str, string_from_str};

verus! {

/// Why a sequence of tokens is not a program.
#[derive(Debug)]
pub enum ParseError {
    /// "Unexpected EOF"
    UnexpectedEof,
    /// "Expected line number, got {token}"
    ExpectedLineNumber(Token),
    /// "Expected keyword, got {token}"
    ExpectedKeyword(Token),
    /// "Unexpected THEN at start of statement"
    UnexpectedThen,
    /// "Expected end of line, found {token}"
    ExpectedEndOfLine(Token),
    /// "Expected identifier, got {token}"
    ExpectedIdentifier(Token),
    /// "Expected assignment, got {token}"
    ExpectedAssignment(Token),
    /// "Expected THEN, got {token}"
    ExpectedThen(Token),
    /// "Expected THEN, got EOF"
    ExpectedThenAtEof,
    /// "Unexpected statement after END"
    StatementAfterEnd,
    /// "Expected relational operators, got {token}"
    ExpectedRelational(Token),
    /// "Expected ')' after expression"
    ExpectedRightParen,
    /// "Expected expression"
    ExpectedExpression,
}

/// The mathematical value of a parse error.
pub enum ParseErrorV {
    UnexpectedEof,
    ExpectedLineNumber(TokenV),
    ExpectedKeyword(TokenV),
    UnexpectedThen,
    ExpectedEndOfLine(TokenV),
    ExpectedIdentifier(TokenV),
    ExpectedAssignment(TokenV),
    ExpectedThen(TokenV),
    ExpectedThenAtEof,
    StatementAfterEnd,
    ExpectedRelational(TokenV),
    ExpectedRightParen,
    ExpectedExpression,
}

impl View for ParseError {
    type V = ParseErrorV;

    open spec fn view(&self) -> ParseErrorV {
        match self {
            ParseError::UnexpectedEof => ParseErrorV::UnexpectedEof,
            ParseError::ExpectedLineNumber(t) => ParseErrorV::ExpectedLineNumber(t@),
            ParseError::ExpectedKeyword(t) => ParseErrorV::ExpectedKeyword(t@),
            ParseError::UnexpectedThen => ParseErrorV::UnexpectedThen,
            ParseError::ExpectedEndOfLine(t) => ParseErrorV::ExpectedEndOfLine(t@),
            ParseError::ExpectedIdentifier(t) => ParseErrorV::ExpectedIdentifier(t@),
            ParseError::ExpectedAssignment(t) => ParseErrorV::ExpectedAssignment(t@),
            ParseError::ExpectedThen(t) => ParseErrorV::ExpectedThen(t@),
            ParseError::ExpectedThenAtEof => ParseErrorV::ExpectedThenAtEof,
            ParseError::StatementAfterEnd => ParseErrorV::StatementAfterEnd,
            ParseError::ExpectedRelational(t) => ParseErrorV::ExpectedRelational(t@),
            ParseError::ExpectedRightParen => ParseErrorV::ExpectedRightParen,
            ParseError::ExpectedExpression => ParseErrorV::ExpectedExpression,
        }
    }
}

/// The name of the kind of a token.
pub open spec fn token_kind_text(t: TokenV) -> Seq<char> {
    match t {
        TokenV::Comment(_) => "Comment"@,
        TokenV::Keyword(_) => "Keyword"@,
        TokenV::Operator(_) => "Operator"@,
        TokenV::Relational(_) => "Relational"@,
        TokenV::Paran(_) => "Paran"@,
        TokenV::Equal => "Equal"@,
        TokenV::Identifier(_) => "Identifier"@,
        TokenV::Integer(_) => "Integer"@,
        TokenV::String(_) => "String"@,
        TokenV::UnterminatedString => "UnterminatedString"@,
        TokenV::Newline => "Newline"@,
    }
}

/// The message of a parse error.
pub open spec fn parse_error_text(e: ParseErrorV) -> Seq<char> {
    match e {
        ParseErrorV::UnexpectedEof => "Unexpected EOF"@,
        ParseErrorV::ExpectedLineNumber(t) => "Expected line number, got "@ + token_kind_text(t),
        ParseErrorV::ExpectedKeyword(t) => "Expected keyword, got "@ + token_kind_text(t),
        ParseErrorV::UnexpectedThen => "Unexpected THEN at start of statement"@,
        ParseErrorV::ExpectedEndOfLine(t) => "Expected end of line, found "@ + token_kind_text(t),
        ParseErrorV::ExpectedIdentifier(t) => "Expected identifier, got "@ + token_kind_text(t),
        ParseErrorV::ExpectedAssignment(t) => "Expected assignment, got "@ + token_kind_text(t),
        ParseErrorV::ExpectedThen(t) => "Expected THEN, got "@ + token_kind_text(t),
        ParseErrorV::ExpectedThenAtEof => "Expected THEN, got EOF"@,
        ParseErrorV::StatementAfterEnd => "Unexpected statement after END"@,
        ParseErrorV::ExpectedRelational(t) => "Expected relational operators, got "@ + token_kind_text(t),
        ParseErrorV::ExpectedRightParen => "Expected ')' after expression"@,
        ParseErrorV::ExpectedExpression => "Expected expression"@,
    }
}

impl Token {
    /// The name of the kind of the token.
    pub fn kind_name(&self) -> (r: &'static str)
        ensures
            r@ == token_kind_text(self@),
    {
        match self {
            Token::Comment(_) => "Comment",
            Token::Keyword(_) => "Keyword",
            Token::Operator(_) => "Operator",
            Token::Relational(_) => "Relational",
            Token::Paran(_) => "Paran",
            Token::Equal => "Equal",
            Token::Identifier(_) => "Identifier",
            Token::Integer(_) => "Integer",
            Token::String(_) => "String",
            Token::UnterminatedString => "UnterminatedString",
            Token::Newline => "Newline",
        }
    }
}

/// A message followed by the kind of a token.
fn message_with_token(message: &str, t: &Token) -> (r: String)
    ensures
        r@ == message@ + token_kind_text(t@),
{
    let mut r = string_from_str(message);
    append_str(&mut r, t.kind_name());
    r
}

impl ParseError {
    /// The message of the error.
    pub fn to_string(&self) -> (r: String)
        ensures
            r@ == parse_error_text(self@),
    {
        match self {
            ParseError::UnexpectedEof => string_from_str("Unexpected EOF"),
            ParseError::ExpectedLineNumber(t) => message_with_token("Expected line number, got ", t),
            ParseError::ExpectedKeyword(t) => message_with_token("Expected keyword, got ", t),
            ParseError::UnexpectedThen => string_from_str("Unexpected THEN at start of statement"),
            ParseError::ExpectedEndOfLine(t) => message_with_token("Expected end of line, found ", t),
            ParseError::ExpectedIdentifier(t) => message_with_token("Expected identifier, got ", t),
            ParseError::ExpectedAssignment(t) => message_with_token("Expected assignment, got ", t),
            ParseError::ExpectedThen(t) => message_with_token("Expected THEN, got ", t),
            ParseError::ExpectedThenAtEof => string_from_str("Expected THEN, got EOF"),
            ParseError::StatementAfterEnd => string_from_str("Unexpected statement after END"),
            ParseError::ExpectedRelational(t) => message_with_token(
                "Expected relational operators, got ",
                t,
            ),
            ParseError::ExpectedRightParen => string_from_str("Expected ')' after expression"),
            ParseError::ExpectedExpression => string_from_str("Expected expression"),
        }
    }
}

/// Why a whole program failed to parse: the error of its first bad line.
#[derive(Debug)]
pub struct ProgramError {
    pub line_error: ParseError,
}

impl ProgramError {
    /// The message of the error: the line's message after a prefix.
    pub fn to_string(&self) -> (r: String)
        ensures
            r@ == "Error parsing: "@ + parse_error_text(self.line_error@),
    {
        let mut r = string_from_str("Error parsing: ");
        let m = self.line_error.to_string();
        append_str(&mut r, m.as_str());
        r
    }
}

/// The result of parsing an expression: the expression or an error, and the
/// tokens left.
pub type ExprParse = (Result<ExprV, ParseErrorV>, Seq<TokenV>);

pub open spec fn binary(op: Math, left: ExprV, right: ExprV) -> ExprV {
    ExprV::Binary { operator: BinaryOp::Arithmetic(op), left: Box::new(left), right: Box::new(right) }
}

/// A token that joins terms: `+`, `-` or `MOD`.
pub open spec fn additive(t: TokenV) -> bool {
    t == TokenV::Operator(Math::Plus) || t == TokenV::Operator(Math::Minus) || t == TokenV::Operator(
        Math::Modulo,
    )
}

/// A token that joins factors: `*` or `/`.
pub open spec fn multiplicative(t: TokenV) -> bool {
    t == TokenV::Operator(Math::Times) || t == TokenV::Operator(Math::Division)
}

pub open spec fn operator_of(t: TokenV) -> Math {
    match t {
        TokenV::Operator(m) => m,
        _ => Math::Plus,
    }
}

/// expression -> term
pub open spec fn p_expression(ts: Seq<TokenV>) -> ExprParse
    decreases ts.len(), 7int,
{
    p_term(ts)
}

/// term -> factor ( ( "-" | "+" | "MOD" ) factor )*
pub open spec fn p_term(ts: Seq<TokenV>) -> ExprParse
    decreases ts.len(), 6int,
{
    let (r, rest) = p_factor(ts);
    match r {
        Err(e) => (Err(e), rest),
        Ok(e) => if rest.len() <= ts.len() {
            p_term_rest(rest, e)
        } else {
            (Ok(e), rest)
        },
    }
}

/// The `( ( "-" | "+" | "MOD" ) factor )*` part of a term, after `acc`.
pub open spec fn p_term_rest(ts: Seq<TokenV>, acc: ExprV) -> ExprParse
    decreases ts.len(), 5int,
{
    if ts.len() > 0 && additive(ts[0]) {
        let (r, rest) = p_factor(ts.drop_first());
        match r {
            Err(e) => (Err(e), rest),
            Ok(right) => {
                let acc2 = binary(operator_of(ts[0]), acc, right);
                if rest.len() < ts.len() {
                    p_term_rest(rest, acc2)
                } else {
                    (Ok(acc2), rest)
                }
            },
        }
    } else {
        (Ok(acc), ts)
    }
}

/// factor -> power ( ( "/" | "*" ) power )*
pub open spec fn p_factor(ts: Seq<TokenV>) -> ExprParse
    decreases ts.len(), 4int,
{
    let (r, rest) = p_power(ts);
    match r {
        Err(e) => (Err(e), rest),
        Ok(e) => if rest.len() <= ts.len() {
            p_factor_rest(rest, e)
        } else {
            (Ok(e), rest)
        },
    }
}

/// The `( ( "/" | "*" ) power )*` part of a factor, after `acc`.
pub open spec fn p_factor_rest(ts: Seq<TokenV>, acc: ExprV) -> ExprParse
    decreases ts.len(), 3int,
{
    if ts.len() > 0 && multiplicative(ts[0]) {
        let (r, rest) = p_power(ts.drop_first());
        match r {
            Err(e) => (Err(e), rest),
            Ok(right) => {
                let acc2 = binary(operator_of(ts[0]), acc, right);
                if rest.len() < ts.len() {
                    p_factor_rest(rest, acc2)
                } else {
                    (Ok(acc2), rest)
                }
            },
        }
    } else {
        (Ok(acc), ts)
    }
}

/// power -> unary ( "**" power )?
pub open spec fn p_power(ts: Seq<TokenV>) -> ExprParse
    decreases ts.len(), 2int,
{
    let (r, rest) = p_unary(ts);
    match r {
        Err(e) => (Err(e), rest),
        Ok(left) => if rest.len() > 0 && rest[0] == TokenV::Operator(Math::Power) && rest.len()
            <= ts.len() {
            let (r2, rest2) = p_power(rest.drop_first());
            match r2 {
                Err(e) => (Err(e), rest2),
                Ok(right) => (Ok(binary(Math::Power, left, right)), rest2),
            }
        } else {
            (Ok(left), rest)
        },
    }
}

/// unary -> "-" unary | primary
pub open spec fn p_unary(ts: Seq<TokenV>) -> ExprParse
    decreases ts.len(), 1int,
{
    if ts.len() > 0 && ts[0] == TokenV::Operator(Math::Minus) {
        let (r, rest) = p_unary(ts.drop_first());
        match r {
            Err(e) => (Err(e), rest),
            Ok(e) => (Ok(ExprV::Unary { operator: UnaryOp::Negate, right: Box::new(e) }), rest),
        }
    } else {
        p_primary(ts)
    }
}

/// primary -> INTEGER | STRING | IDENTIFIER | "(" expression ")"
pub open spec fn p_primary(ts: Seq<TokenV>) -> ExprParse
    decreases ts.len(), 0int,
{
    if ts.len() == 0 {
        (Err(ParseErrorV::ExpectedExpression), ts)
    } else {
        match ts[0] {
            TokenV::Integer(n) => (Ok(ExprV::Literal(LiteralV::Integer(n))), ts.drop_first()),
            TokenV::String(s) => (Ok(ExprV::Literal(LiteralV::String(s))), ts.drop_first()),
            TokenV::Identifier(name) => (Ok(ExprV::Variable { name }), ts.drop_first()),
            TokenV::Paran(Side::Left) => {
                let (r, rest) = p_expression(ts.drop_first());
                match r {
                    Err(e) => (Err(e), rest),
                    Ok(e) => if rest.len() > 0 && rest[0] == TokenV::Paran(Side::Right) {
                        (Ok(ExprV::Grouping { expression: Box::new(e) }), rest.drop_first())
                    } else if rest.len() > 0 {
                        (Err(ParseErrorV::ExpectedRightParen), rest.drop_first())
                    } else {
                        (Err(ParseErrorV::ExpectedRightParen), rest)
                    },
                }
            },
            _ => (Err(ParseErrorV::ExpectedExpression), ts.drop_first()),
        }
    }
}

pub proof fn lemma_p_expression(ts: Seq<TokenV>)
    ensures
        p_expression(ts).1.len() <= ts.len(),
    decreases ts.len(), 7int,
{
    lemma_p_term(ts);
}

pub proof fn lemma_p_term(ts: Seq<TokenV>)
    ensures
        p_term(ts).1.len() <= ts.len(),
    decreases ts.len(), 6int,
{
    lemma_p_factor(ts);
    let (r, rest) = p_factor(ts);
    if let Ok(e) = r {
        lemma_p_term_rest(rest, e);
    }
}

pub proof fn lemma_p_term_rest(ts: Seq<TokenV>, acc: ExprV)
    ensures
        p_term_rest(ts, acc).1.len() <= ts.len(),
    decreases ts.len(), 5int,
{
    if ts.len() > 0 && additive(ts[0]) {
        lemma_p_factor(ts.drop_first());
        let (r, rest) = p_factor(ts.drop_first());
        if let Ok(right) = r {
            if rest.len() < ts.len() {
                lemma_p_term_rest(rest, binary(operator_of(ts[0]), acc, right));
            }
        }
    }
}

pub proof fn lemma_p_factor(ts: Seq<TokenV>)
    ensures
        p_factor(ts).1.len() <= ts.len(),
    decreases ts.len(), 4int,
{
    lemma_p_power(ts);
    let (r, rest) = p_power(ts);
    if let Ok(e) = r {
        lemma_p_factor_rest(rest, e);
    }
}

pub proof fn lemma_p_factor_rest(ts: Seq<TokenV>, acc: ExprV)
    ensures
        p_factor_rest(ts, acc).1.len() <= ts.len(),
    decreases ts.len(), 3int,
{
    if ts.len() > 0 && multiplicative(ts[0]) {
        lemma_p_power(ts.drop_first());
        let (r, rest) = p_power(ts.drop_first());
        if let Ok(right) = r {
            if rest.len() < ts.len() {
                lemma_p_factor_rest(rest, binary(operator_of(ts[0]), acc, right));
            }
        }
    }
}

pub proof fn lemma_p_power(ts: Seq<TokenV>)
    ensures
        p_power(ts).1.len() <= ts.len(),
    decreases ts.len(), 2int,
{
    lemma_p_unary(ts);
    let (r, rest) = p_unary(ts);
    if r is Ok && rest.len() > 0 && rest[0] == TokenV::Operator(Math::Power) && rest.len() <= ts.len() {
        lemma_p_power(rest.drop_first());
    }
}

pub proof fn lemma_p_unary(ts: Seq<TokenV>)
    ensures
        p_unary(ts).1.len() <= ts.len(),
    decreases ts.len(), 1int,
{
    if ts.len() > 0 && ts[0] == TokenV::Operator(Math::Minus) {
        lemma_p_unary(ts.drop_first());
    } else {
        lemma_p_primary(ts);
    }
}

pub proof fn lemma_p_primary(ts: Seq<TokenV>)
    ensures
        p_primary(ts).1.len() <= ts.len(),
    decreases ts.len(), 0int,
{
    if ts.len() > 0 && ts[0] == TokenV::Paran(Side::Left) {
        lemma_p_expression(ts.drop_first());
    }
}

/// The result of parsing a statement: the statement or an error, and the
/// tokens left.
pub type StmtParse = (Result<StmtV, ParseErrorV>, Seq<TokenV>);

/// LET: IDENTIFIER "=" expression
pub open spec fn p_let(ts: Seq<TokenV>) -> StmtParse {
    if ts.len() == 0 {
        (Err(ParseErrorV::UnexpectedEof), ts)
    } else {
        match ts[0] {
            TokenV::Identifier(name) => {
                let ts1 = ts.drop_first();
                if ts1.len() == 0 {
                    (Err(ParseErrorV::UnexpectedEof), ts1)
                } else if ts1[0] == TokenV::Equal {
                    let (r, rest) = p_expression(ts1.drop_first());
                    match r {
                        Ok(e) => (Ok(StmtV::Let { name, expr: e }), rest),
                        Err(e) => (Err(e), rest),
                    }
                } else {
                    (Err(ParseErrorV::ExpectedAssignment(ts1[0])), ts1.drop_first())
                }
            },
            t => (Err(ParseErrorV::ExpectedIdentifier(t)), ts.drop_first()),
        }
    }
}

/// GOTO: INTEGER
pub open spec fn p_goto(ts: Seq<TokenV>) -> StmtParse {
    if ts.len() == 0 {
        (Err(ParseErrorV::UnexpectedEof), ts)
    } else {
        match ts[0] {
            TokenV::Integer(n) => (Ok(StmtV::Goto { lineno: n }), ts.drop_first()),
            t => (Err(ParseErrorV::ExpectedLineNumber(t)), ts.drop_first()),
        }
    }
}

/// The relational operator that a token stands for in a condition.
pub open spec fn relation_of(t: TokenV) -> Option<Relational> {
    match t {
        TokenV::Equal => Some(Relational::Eq),
        TokenV::Relational(r) => Some(r),
        _ => None,
    }
}

/// A condition: expression RELATION expression
pub open spec fn p_conditional(ts: Seq<TokenV>) -> ExprParse {
    let (r, rest) = p_expression(ts);
    match r {
        Err(e) => (Err(e), rest),
        Ok(left) => if rest.len() == 0 {
            (Err(ParseErrorV::UnexpectedEof), rest)
        } else {
            match relation_of(rest[0]) {
                None => (Err(ParseErrorV::ExpectedRelational(rest[0])), rest.drop_first()),
                Some(op) => {
                    let (r2, rest2) = p_expression(rest.drop_first());
                    match r2 {
                        Err(e) => (Err(e), rest2),
                        Ok(right) => (
                            Ok(
                                ExprV::Binary {
                                    operator: BinaryOp::Relational(op),
                                    left: Box::new(left),
                                    right: Box::new(right),
                                },
                            ),
                            rest2,
                        ),
                    }
                },
            }
        },
    }
}

/// IF: condition THEN INTEGER
pub open spec fn p_if(ts: Seq<TokenV>) -> StmtParse {
    let (r, rest) = p_conditional(ts);
    match r {
        Err(e) => (Err(e), rest),
        Ok(c) => if rest.len() == 0 {
            (Err(ParseErrorV::ExpectedThenAtEof), rest)
        } else if rest[0] == TokenV::Keyword(KeywordV::Then) {
            let r2 = rest.drop_first();
            if r2.len() == 0 {
                (Err(ParseErrorV::UnexpectedEof), r2)
            } else {
                match r2[0] {
                    TokenV::Integer(n) => (Ok(StmtV::IfThen { conditional: c, lineno: n }), r2.drop_first()),
                    t => (Err(ParseErrorV::ExpectedLineNumber(t)), r2.drop_first()),
                }
            }
        } else {
            (Err(ParseErrorV::ExpectedThen(rest[0])), rest.drop_first())
        },
    }
}

/// PRINT: an expression, or nothing at the end of the line.
pub open spec fn p_print(ts: Seq<TokenV>) -> StmtParse {
    if ts.len() == 0 || ts[0] == TokenV::Newline {
        (Ok(StmtV::Print { expr: ExprV::Literal(LiteralV::Empty) }), ts)
    } else {
        let (r, rest) = p_expression(ts);
        match r {
            Ok(e) => (Ok(StmtV::Print { expr: e }), rest),
            Err(e) => (Err(e), rest),
        }
    }
}

/// INPUT: IDENTIFIER
pub open spec fn p_input(ts: Seq<TokenV>) -> StmtParse {
    if ts.len() == 0 {
        (Err(ParseErrorV::UnexpectedEof), ts)
    } else {
        match ts[0] {
            TokenV::Identifier(name) => (Ok(StmtV::Input { name }), ts.drop_first()),
            t => (Err(ParseErrorV::ExpectedIdentifier(t)), ts.drop_first()),
        }
    }
}

/// END: only newlines may follow, up to the end of the input.
pub open spec fn p_end(ts: Seq<TokenV>) -> StmtParse
    decreases ts.len(),
{
    if ts.len() == 0 {
        (Ok(StmtV::End), ts)
    } else if ts[0] == TokenV::Newline {
        p_end(ts.drop_first())
    } else {
        (Err(ParseErrorV::StatementAfterEnd), ts.drop_first())
    }
}

/// A statement: a keyword (or an apostrophe comment) and what it takes.
pub open spec fn p_statement(ts: Seq<TokenV>) -> StmtParse {
    if ts.len() == 0 {
        (Err(ParseErrorV::UnexpectedEof), ts)
    } else {
        let rest = ts.drop_first();
        match ts[0] {
            TokenV::Comment(c) => (Ok(StmtV::Rem { comment: c }), rest),
            TokenV::Keyword(k) => match k {
                KeywordV::Let => p_let(rest),
                KeywordV::Goto => p_goto(rest),
                KeywordV::If => p_if(rest),
                KeywordV::Print => p_print(rest),
                KeywordV::Input => p_input(rest),
                KeywordV::End => p_end(rest),
                KeywordV::Rem(c) => (Ok(StmtV::Rem { comment: c }), rest),
                KeywordV::Then => (Err(ParseErrorV::UnexpectedThen), rest),
            },
            t => (Err(ParseErrorV::ExpectedKeyword(t)), rest),
        }
    }
}

/// A line: INTEGER statement, then a newline or the end of the input.
pub open spec fn p_line(ts: Seq<TokenV>) -> (Result<LineV, ParseErrorV>, Seq<TokenV>) {
    if ts.len() == 0 {
        (Err(ParseErrorV::UnexpectedEof), ts)
    } else {
        match ts[0] {
            TokenV::Integer(n) => {
                let (r, rest) = p_statement(ts.drop_first());
                match r {
                    Err(e) => (Err(e), rest),
                    Ok(st) => if rest.len() == 0 {
                        (Ok(LineV { lineno: n, statement: st }), rest)
                    } else if rest[0] == TokenV::Newline {
                        (Ok(LineV { lineno: n, statement: st }), rest.drop_first())
                    } else {
                        (Err(ParseErrorV::ExpectedEndOfLine(rest[0])), rest)
                    },
                }
            },
            t => (Err(ParseErrorV::ExpectedLineNumber(t)), ts.drop_first()),
        }
    }
}

/// Lines up to the end of the input, after the lines `acc`; the first error
/// ends the parse.
pub open spec fn p_lines(ts: Seq<TokenV>, acc: Seq<LineV>) -> (Result<Seq<LineV>, ParseErrorV>, Seq<TokenV>)
    decreases ts.len(),
{
    if ts.len() == 0 {
        (Ok(acc), ts)
    } else {
        let (r, rest) = p_line(ts);
        match r {
            Err(e) => (Err(e), rest),
            Ok(l) => if rest.len() < ts.len() {
                p_lines(rest, acc.push(l))
            } else {
                (Ok(acc.push(l)), rest)
            },
        }
    }
}

proof fn lemma_p_end(ts: Seq<TokenV>)
    ensures
        p_end(ts).1.len() <= ts.len(),
    decreases ts.len(),
{
    if ts.len() > 0 && ts[0] == TokenV::Newline {
        lemma_p_end(ts.drop_first());
    }
}

proof fn lemma_p_statement(ts: Seq<TokenV>)
    ensures
        p_statement(ts).1.len() <= ts.len(),
{
    if ts.len() > 0 {
        let rest = ts.drop_first();
        lemma_p_end(rest);
        lemma_p_expression(rest);
        if rest.len() > 1 {
            lemma_p_expression(rest.drop_first().drop_first());
        }
        let (r, rest1) = p_expression(rest);
        if rest1.len() > 0 {
            lemma_p_expression(rest1.drop_first());
        }
    }
}

proof fn lemma_p_line(ts: Seq<TokenV>)
    ensures
        p_line(ts).1.len() < ts.len() || (ts.len() == 0 && p_line(ts).1.len() == 0),
{
    if ts.len() > 0 {
        lemma_p_statement(ts.drop_first());
    }
}

// ---------------------------------------------------------------------------
// Laws of the grammar

/// A program parses only as a whole: when parsing lines succeeds, every
/// token was consumed, and each line parsed is one more in the result.
pub proof fn law_parse_consumes_all(ts: Seq<TokenV>, acc: Seq<LineV>)
    ensures
        p_lines(ts, acc).0 is Ok ==> p_lines(ts, acc).1.len() == 0,
        p_lines(ts, acc).0 is Ok ==> p_lines(ts, acc).0->Ok_0.len() >= acc.len(),
        p_lines(ts, acc).0 is Ok ==> p_lines(ts, acc).0->Ok_0.take(acc.len() as int) == acc,
    decreases ts.len(),
{
    if ts.len() > 0 {
        lemma_p_line(ts);
        let (r, rest) = p_line(ts);
        match r {
            Ok(l) => {
                law_parse_consumes_all(rest, acc.push(l));
                if p_lines(ts, acc).0 is Ok {
                    let out = p_lines(rest, acc.push(l)).0->Ok_0;
                    assert(out.take((acc.len() + 1) as int) == acc.push(l));
                    assert(out.take(acc.len() as int) =~= out.take((acc.len() + 1) as int).take(
                        acc.len() as int,
                    ));
                    assert(acc.push(l).take(acc.len() as int) =~= acc);
                }
            },
            Err(_) => {},
        }
    } else {
        assert(acc.take(acc.len() as int) =~= acc);
    }
}

/// An integer literal.
pub open spec fn int_lit(n: u32) -> ExprV {
    ExprV::Literal(LiteralV::Integer(n))
}

proof fn lemma_power_int(n: u32, rest: Seq<TokenV>)
    requires
        !(rest.len() > 0 && rest[0] == TokenV::Operator(Math::Power)),
    ensures
        p_power(seq![TokenV::Integer(n)] + rest) == (Ok::<ExprV, ParseErrorV>(int_lit(n)), rest),
{
    let ts = seq![TokenV::Integer(n)] + rest;
    assert(ts[0] == TokenV::Integer(n));
    assert(ts.drop_first() =~= rest);
    assert(p_primary(ts) == (Ok::<ExprV, ParseErrorV>(int_lit(n)), rest));
    assert(p_unary(ts) == (Ok::<ExprV, ParseErrorV>(int_lit(n)), rest));
}

proof fn lemma_factor_int(n: u32, rest: Seq<TokenV>)
    requires
        !(rest.len() > 0 && (multiplicative(rest[0]) || rest[0] == TokenV::Operator(Math::Power))),
    ensures
        p_factor(seq![TokenV::Integer(n)] + rest) == (Ok::<ExprV, ParseErrorV>(int_lit(n)), rest),
{
    lemma_power_int(n, rest);
}

/// `+`, `-` and `MOD` associate to the left: `a o1 b o2 c` is
/// `(a o1 b) o2 c`.
pub proof fn law_additive_left_associative(a: u32, o1: Math, b: u32, o2: Math, c: u32)
    requires
        additive(TokenV::Operator(o1)),
        additive(TokenV::Operator(o2)),
    ensures
        p_expression(
            seq![
                TokenV::Integer(a),
                TokenV::Operator(o1),
                TokenV::Integer(b),
                TokenV::Operator(o2),
                TokenV::Integer(c),
            ],
        ) == (Ok::<ExprV, ParseErrorV>(binary(o2, binary(o1, int_lit(a), int_lit(b)), int_lit(c))), Seq::<TokenV>::empty()),
{
    let ts = seq![
        TokenV::Integer(a),
        TokenV::Operator(o1),
        TokenV::Integer(b),
        TokenV::Operator(o2),
        TokenV::Integer(c),
    ];
    let r1 = seq![TokenV::Operator(o1), TokenV::Integer(b), TokenV::Operator(o2), TokenV::Integer(c)];
    let r2 = seq![TokenV::Operator(o2), TokenV::Integer(c)];
    let r3 = Seq::<TokenV>::empty();
    assert(ts =~= seq![TokenV::Integer(a)] + r1);
    lemma_factor_int(a, r1);
    assert(r1.drop_first() =~= seq![TokenV::Integer(b)] + r2);
    lemma_factor_int(b, r2);
    assert(r2.drop_first() =~= seq![TokenV::Integer(c)] + r3);
    lemma_factor_int(c, r3);
    let ab = binary(o1, int_lit(a), int_lit(b));
    assert(p_term_rest(r3, binary(o2, ab, int_lit(c))) == (Ok::<ExprV, ParseErrorV>(binary(o2, ab, int_lit(c))), r3));
    assert(p_term_rest(r2, ab) == (Ok::<ExprV, ParseErrorV>(binary(o2, ab, int_lit(c))), r3));
    assert(p_term_rest(r1, int_lit(a)) == (Ok::<ExprV, ParseErrorV>(binary(o2, ab, int_lit(c))), r3));
}

/// `*` and `/` bind tighter than `+`, `-` and `MOD`: `a o1 b o2 c`, with
/// `o1` additive and `o2` multiplicative, is `a o1 (b o2 c)`.
pub proof fn law_multiplicative_binds_tighter(a: u32, o1: Math, b: u32, o2: Math, c: u32)
    requires
        additive(TokenV::Operator(o1)),
        multiplicative(TokenV::Operator(o2)),
    ensures
        p_expression(
            seq![
                TokenV::Integer(a),
                TokenV::Operator(o1),
                TokenV::Integer(b),
                TokenV::Operator(o2),
                TokenV::Integer(c),
            ],
        ) == (Ok::<ExprV, ParseErrorV>(binary(o1, int_lit(a), binary(o2, int_lit(b), int_lit(c)))), Seq::<TokenV>::empty()),
{
    let ts = seq![
        TokenV::Integer(a),
        TokenV::Operator(o1),
        TokenV::Integer(b),
        TokenV::Operator(o2),
        TokenV::Integer(c),
    ];
    let r1 = seq![TokenV::Operator(o1), TokenV::Integer(b), TokenV::Operator(o2), TokenV::Integer(c)];
    let r2 = seq![TokenV::Operator(o2), TokenV::Integer(c)];
    let r3 = Seq::<TokenV>::empty();
    assert(ts =~= seq![TokenV::Integer(a)] + r1);
    lemma_factor_int(a, r1);
    let f = r1.drop_first();
    assert(f =~= seq![TokenV::Integer(b)] + r2);
    lemma_power_int(b, r2);
    assert(r2.drop_first() =~= seq![TokenV::Integer(c)] + r3);
    lemma_power_int(c, r3);
    let bc = binary(o2, int_lit(b), int_lit(c));
    assert(p_factor_rest(r3, bc) == (Ok::<ExprV, ParseErrorV>(bc), r3));
    assert(p_factor_rest(r2, int_lit(b)) == (Ok::<ExprV, ParseErrorV>(bc), r3));
    assert(p_factor(f) == (Ok::<ExprV, ParseErrorV>(bc), r3));
    assert(p_term_rest(r3, binary(o1, int_lit(a), bc)) == (Ok::<ExprV, ParseErrorV>(binary(o1, int_lit(a), bc)), r3));
    assert(p_term_rest(r1, int_lit(a)) == (Ok::<ExprV, ParseErrorV>(binary(o1, int_lit(a), bc)), r3));
}

/// `*` and `/` associate to the left: `a o1 b o2 c` is `(a o1 b) o2 c`.
pub proof fn law_multiplicative_left_associative(a: u32, o1: Math, b: u32, o2: Math, c: u32)
    requires
        multiplicative(TokenV::Operator(o1)),
        multiplicative(TokenV::Operator(o2)),
    ensures
        p_expression(
            seq![
                TokenV::Integer(a),
                TokenV::Operator(o1),
                TokenV::Integer(b),
                TokenV::Operator(o2),
                TokenV::Integer(c),
            ],
        ) == (Ok::<ExprV, ParseErrorV>(binary(o2, binary(o1, int_lit(a), int_lit(b)), int_lit(c))), Seq::<TokenV>::empty()),
{
    let ts = seq![
        TokenV::Integer(a),
        TokenV::Operator(o1),
        TokenV::Integer(b),
        TokenV::Operator(o2),
        TokenV::Integer(c),
    ];
    let r1 = seq![TokenV::Operator(o1), TokenV::Integer(b), TokenV::Operator(o2), TokenV::Integer(c)];
    let r2 = seq![TokenV::Operator(o2), TokenV::Integer(c)];
    let r3 = Seq::<TokenV>::empty();
    assert(ts =~= seq![TokenV::Integer(a)] + r1);
    lemma_power_int(a, r1);
    assert(r1.drop_first() =~= seq![TokenV::Integer(b)] + r2);
    lemma_power_int(b, r2);
    assert(r2.drop_first() =~= seq![TokenV::Integer(c)] + r3);
    lemma_power_int(c, r3);
    let ab = binary(o1, int_lit(a), int_lit(b));
    let abc = binary(o2, ab, int_lit(c));
    assert(p_factor_rest(r3, abc) == (Ok::<ExprV, ParseErrorV>(abc), r3));
    assert(p_factor_rest(r2, ab) == (Ok::<ExprV, ParseErrorV>(abc), r3));
    assert(p_factor_rest(r1, int_lit(a)) == (Ok::<ExprV, ParseErrorV>(abc), r3));
    assert(p_factor(ts) == (Ok::<ExprV, ParseErrorV>(abc), r3));
    assert(p_term_rest(r3, abc) == (Ok::<ExprV, ParseErrorV>(abc), r3));
}

/// `**` associates to the right: `a ** b ** c` is `a ** (b ** c)`.
pub proof fn law_power_right_associative(a: u32, b: u32, c: u32)
    ensures
        p_expression(
            seq![
                TokenV::Integer(a),
                TokenV::Operator(Math::Power),
                TokenV::Integer(b),
                TokenV::Operator(Math::Power),
                TokenV::Integer(c),
            ],
        ) == (Ok::<ExprV, ParseErrorV>(
            binary(Math::Power, int_lit(a), binary(Math::Power, int_lit(b), int_lit(c))),
        ), Seq::<TokenV>::empty()),
{
    let ts = seq![
        TokenV::Integer(a),
        TokenV::Operator(Math::Power),
        TokenV::Integer(b),
        TokenV::Operator(Math::Power),
        TokenV::Integer(c),
    ];
    let r1 = seq![TokenV::Operator(Math::Power), TokenV::Integer(b), TokenV::Operator(Math::Power), TokenV::Integer(c)];
    let r2 = seq![TokenV::Operator(Math::Power), TokenV::Integer(c)];
    let r3 = Seq::<TokenV>::empty();
    assert(ts.drop_first() =~= r1);
    assert(r1.drop_first() =~= seq![TokenV::Integer(b)] + r2);
    assert(r2.drop_first() =~= seq![TokenV::Integer(c)] + r3);
    lemma_power_int(c, r3);
    let bc = binary(Math::Power, int_lit(b), int_lit(c));
    let s2 = seq![TokenV::Integer(b)] + r2;
    assert(s2[0] == TokenV::Integer(b));
    assert(s2.drop_first() =~= r2);
    assert(p_primary(s2) == (Ok::<ExprV, ParseErrorV>(int_lit(b)), r2));
    assert(p_unary(s2) == (Ok::<ExprV, ParseErrorV>(int_lit(b)), r2));
    assert(p_power(s2) == (Ok::<ExprV, ParseErrorV>(bc), r3));
    assert(p_primary(ts) == (Ok::<ExprV, ParseErrorV>(int_lit(a)), r1));
    assert(p_unary(ts) == (Ok::<ExprV, ParseErrorV>(int_lit(a)), r1));
    let abc = binary(Math::Power, int_lit(a), bc);
    assert(p_power(ts) == (Ok::<ExprV, ParseErrorV>(abc), r3));
    assert(p_factor_rest(r3, abc) == (Ok::<ExprV, ParseErrorV>(abc), r3));
    assert(p_term_rest(r3, abc) == (Ok::<ExprV, ParseErrorV>(abc), r3));
}

/// The view of the result of parsing an expression.
pub open spec fn expr_result(r: Result<Expr, ParseError>) -> Result<ExprV, ParseErrorV> {
    match r {
        Ok(e) => Ok(e@),
        Err(e) => Err(e@),
    }
}

/// The view of the result of parsing a statement.
pub open spec fn stmt_result(r: Result<Stmt, ParseError>) -> Result<StmtV, ParseErrorV> {
    match r {
        Ok(s) => Ok(s@),
        Err(e) => Err(e@),
    }
}

/// The view of the result of parsing a line.
pub open spec fn line_result(r: Result<Line, ParseError>) -> Result<LineV, ParseErrorV> {
    match r {
        Ok(l) => Ok(l@),
        Err(e) => Err(e@),
    }
}

/// The view of the result of parsing lines.
pub open spec fn lines_result(r: Result<Vec<Line>, ProgramError>) -> Result<Seq<LineV>, ParseErrorV> {
    match r {
        Ok(ls) => Ok(ls@.map_values(|l: Line| l@)),
        Err(e) => Err(e.line_error@),
    }
}

/// A copy of a token.
pub fn copy_token(t: &Token) -> (r: Token)
    ensures
        r@ == t@,
{
    match t {
        Token::Comment(s) => Token::Comment(s.clone()),
        Token::Keyword(k) => Token::Keyword(
            match k {
                Keyword::Rem(s) => Keyword::Rem(s.clone()),
                Keyword::Let => Keyword::Let,
                Keyword::Print => Keyword::Print,
                Keyword::Input => Keyword::Input,
                Keyword::If => Keyword::If,
                Keyword::Then => Keyword::Then,
                Keyword::Goto => Keyword::Goto,
                Keyword::End => Keyword::End,
            },
        ),
        Token::Operator(m) => Token::Operator(*m),
        Token::Relational(r) => Token::Relational(*r),
        Token::Paran(p) => Token::Paran(*p),
        Token::Equal => Token::Equal,
        Token::Identifier(s) => Token::Identifier(s.clone()),
        Token::Integer(n) => Token::Integer(*n),
        Token::String(s) => Token::String(s.clone()),
        Token::UnterminatedString => Token::UnterminatedString,
        Token::Newline => Token::Newline,
    }
}

/// A recursive descent parser over a queue of tokens.
pub struct Parser {
    pub tokens: VecDeque<Token>,
}

impl Parser {
    /// The tokens not yet consumed.
    pub open spec fn toks(&self) -> Seq<TokenV> {
        self.tokens@.map_values(|t: Token| t@)
    }

    /// A parser over the given tokens.
    pub fn new(tokens: Vec<Token>) -> (p: Parser)
        ensures
            p.toks() == tokens@.map_values(|t: Token| t@),
    {
        let mut q: VecDeque<Token> = VecDeque::new();
        let mut tokens = tokens;
        let ghost all = tokens@;
        let mut rest: Vec<Token> = Vec::new();
        // Move the tokens over in order: first reversed onto `rest`, then
        // from `rest` to the back of the queue.
        assert(all =~= tokens@ + rest@.reverse());
        while tokens.len() > 0
            invariant
                all == tokens@ + rest@.reverse(),
            decreases tokens.len(),
        {
            let t = tokens.pop().unwrap();
            rest.push(t);
            assert(all =~= tokens@ + rest@.reverse());
        }
        assert(all =~= q@ + rest@.reverse());
        while rest.len() > 0
            invariant
                all == q@ + rest@.reverse(),
            decreases rest.len(),
        {
            let t = rest.pop().unwrap();
            q.push_back(t);
            assert(all =~= q@ + rest@.reverse());
        }
        assert(q@ =~= all);
        let p = Parser { tokens: q };
        assert(p.toks() =~= all.map_values(|t: Token| t@));
        p
    }

    /// Consume a token and return it.
    fn advance(&mut self) -> (r: Option<Token>)
        ensures
            match r {
                Some(t) => {
                    &&& old(self).toks().len() > 0
                    &&& t@ == old(self).toks()[0]
                    &&& final(self).toks() == old(self).toks().drop_first()
                },
                None => old(self).toks().len() == 0 && final(self).toks() == old(self).toks(),
            },
    {
        let r = self.tokens.pop_front();
        assert(self.toks() =~= old(self).toks().drop_first() || r is None);
        r
    }

    /// Parses all lines up to the end of the input; the first error ends
    /// the parse.
    pub fn parse(&mut self) -> (r: Result<Vec<Line>, ProgramError>)
        ensures
            lines_result(r) == p_lines(old(self).toks(), Seq::empty()).0,
            final(self).toks() == p_lines(old(self).toks(), Seq::empty()).1,
    {
        let mut lines: Vec<Line> = Vec::new();
        let ghost t0 = self.toks();
        assert(lines@.map_values(|l: Line| l@) =~= Seq::<LineV>::empty());
        loop
            invariant
                t0 == old(self).toks(),
                p_lines(t0, Seq::empty()) == p_lines(self.toks(), lines@.map_values(|l: Line| l@)),
            decreases self.toks().len(),
        {
            if self.peek().is_none() {
                return Ok(lines);
            }
            let ghost before = self.toks();
            proof {
                lemma_p_line(before);
            }
            match self.line() {
                Ok(line) => {
                    let ghost acc = lines@.map_values(|l: Line| l@);
                    lines.push(line);
                    assert(lines@.map_values(|l: Line| l@) =~= acc.push(line@));
                },
                Err(err) => {
                    return Err(ProgramError { line_error: err });
                },
            }
        }
    }

    /// Parses one line: its number, a statement, and the end of the line.
    pub fn line(&mut self) -> (r: Result<Line, ParseError>)
        ensures
            line_result(r) == p_line(old(self).toks()).0,
            final(self).toks() == p_line(old(self).toks()).1,
    {
        let lineno = match self.advance() {
            Some(Token::Integer(lineno)) => lineno,
            Some(token) => return Err(ParseError::ExpectedLineNumber(token)),
            None => return Err(ParseError::UnexpectedEof),
        };
        let statement = match self.statement() {
            Ok(st) => st,
            Err(e) => return Err(e),
        };
        // Handle end of line
        let is_newline = match self.peek() {
            Some(Token::Newline) => true,
            _ => false,
        };
        if is_newline {
            let _ = self.advance();
        } else {
            match self.peek() {
                Some(token) => return Err(ParseError::ExpectedEndOfLine(copy_token(token))),
                None => {},
            }
        }
        Ok(Line { lineno, statement })
    }

    /// Parses a statement: a keyword (or an apostrophe comment) and what
    /// the keyword takes.
    pub fn statement(&mut self) -> (r: Result<Stmt, ParseError>)
        ensures
            stmt_result(r) == p_statement(old(self).toks()).0,
            final(self).toks() == p_statement(old(self).toks()).1,
    {
        let keyword = match self.advance() {
            Some(Token::Comment(comment)) => Keyword::Rem(comment),
            Some(Token::Keyword(keyword)) => keyword,
            Some(token) => return Err(ParseError::ExpectedKeyword(token)),
            None => return Err(ParseError::UnexpectedEof),
        };
        match keyword {
            Keyword::Let => self.parse_let(),
            Keyword::Goto => self.parse_goto(),
            Keyword::If => self.parse_if(),
            Keyword::Print => self.parse_print(),
            Keyword::Input => self.parse_input(),
            Keyword::End => self.parse_end(),
            Keyword::Rem(comment) => Ok(Stmt::Rem { comment }),
            Keyword::Then => Err(ParseError::UnexpectedThen),
        }
    }

    fn parse_let(&mut self) -> (r: Result<Stmt, ParseError>)
        ensures
            stmt_result(r) == p_let(old(self).toks()).0,
            final(self).toks() == p_let(old(self).toks()).1,
    {
        let name = match self.advance() {
            Some(Token::Identifier(name)) => name,
            Some(token) => return Err(ParseError::ExpectedIdentifier(token)),
            None => return Err(ParseError::UnexpectedEof),
        };
        match self.advance() {
            Some(Token::Equal) => {},
            Some(token) => return Err(ParseError::ExpectedAssignment(token)),
            None => return Err(ParseError::UnexpectedEof),
        }
        let expr = match self.expression() {
            Ok(e) => e,
            Err(e) => return Err(e),
        };
        Ok(Stmt::Let { name, expr })
    }

    fn parse_goto(&mut self) -> (r: Result<Stmt, ParseError>)
        ensures
            stmt_result(r) == p_goto(old(self).toks()).0,
            final(self).toks() == p_goto(old(self).toks()).1,
    {
        let lineno = match self.advance() {
            Some(Token::Integer(lineno)) => lineno,
            Some(token) => return Err(ParseError::ExpectedLineNumber(token)),
            None => return Err(ParseError::UnexpectedEof),
        };
        Ok(Stmt::Goto { lineno })
    }

    fn parse_if(&mut self) -> (r: Result<Stmt, ParseError>)
        ensures
            stmt_result(r) == p_if(old(self).toks()).0,
            final(self).toks() == p_if(old(self).toks()).1,
    {
        let conditional = match self.conditional() {
            Ok(e) => e,
            Err(e) => return Err(e),
        };
        match self.advance() {
            Some(Token::Keyword(Keyword::Then)) => {},
            Some(token) => return Err(ParseError::ExpectedThen(token)),
            None => return Err(ParseError::ExpectedThenAtEof),
        }
        let lineno = match self.advance() {
            Some(Token::Integer(lineno)) => lineno,
            Some(token) => return Err(ParseError::ExpectedLineNumber(token)),
            None => return Err(ParseError::UnexpectedEof),
        };
        Ok(Stmt::IfThen { conditional, lineno })
    }

    fn parse_print(&mut self) -> (r: Result<Stmt, ParseError>)
        ensures
            stmt_result(r) == p_print(old(self).toks()).0,
            final(self).toks() == p_print(old(self).toks()).1,
    {
        // Handle print a single new line
        let ends = match self.peek() {
            Some(Token::Newline) => true,
            None => true,
            _ => false,
        };
        if ends {
            return Ok(Stmt::Print { expr: Expr::Literal(LiteralValue::Empty) });
        }
        let expr = match self.expression() {
            Ok(e) => e,
            Err(e) => return Err(e),
        };
        Ok(Stmt::Print { expr })
    }

    fn parse_input(&mut self) -> (r: Result<Stmt, ParseError>)
        ensures
            stmt_result(r) == p_input(old(self).toks()).0,
            final(self).toks() == p_input(old(self).toks()).1,
    {
        let name = match self.advance() {
            Some(Token::Identifier(name)) => name,
            Some(token) => return Err(ParseError::ExpectedIdentifier(token)),
            None => return Err(ParseError::UnexpectedEof),
        };
        Ok(Stmt::Input { name })
    }

    fn parse_end(&mut self) -> (r: Result<Stmt, ParseError>)
        ensures
            stmt_result(r) == p_end(old(self).toks()).0,
            final(self).toks() == p_end(old(self).toks()).1,
    {
        let ghost t0 = self.toks();
        loop
            invariant
                t0 == old(self).toks(),
                p_end(t0) == p_end(self.toks()),
            decreases self.toks().len(),
        {
            match self.advance() {
                Some(Token::Newline) => {},
                Some(_) => return Err(ParseError::StatementAfterEnd),
                None => return Ok(Stmt::End),
            }
        }
    }

    /// In QBasic, a conditional is only a conditional operator
    /// with expressions on both sides
    fn conditional(&mut self) -> (r: Result<Expr, ParseError>)
        ensures
            expr_result(r) == p_conditional(old(self).toks()).0,
            final(self).toks() == p_conditional(old(self).toks()).1,
    {
        let left = match self.expression() {
            Ok(e) => e,
            Err(e) => return Err(e),
        };
        let op = match self.advance() {
            Some(Token::Equal) => Relational::Eq,
            Some(Token::Relational(relation)) => relation,
            Some(token) => return Err(ParseError::ExpectedRelational(token)),
            None => return Err(ParseError::UnexpectedEof),
        };
        let right = match self.expression() {
            Ok(e) => e,
            Err(e) => return Err(e),
        };
        Ok(Expr::Binary { operator: BinaryOp::Relational(op), left: Box::new(left), right: Box::new(right) })
    }

    /// expression -> term
    fn expression(&mut self) -> (r: Result<Expr, ParseError>)
        ensures
            expr_result(r) == p_expression(old(self).toks()).0,
            final(self).toks() == p_expression(old(self).toks()).1,
        decreases old(self).toks().len(), 7int,
    {
        self.term()
    }

    /// term -> factor ( ( "-" | "+" | "MOD" ) factor )*
    fn term(&mut self) -> (r: Result<Expr, ParseError>)
        ensures
            expr_result(r) == p_term(old(self).toks()).0,
            final(self).toks() == p_term(old(self).toks()).1,
        decreases old(self).toks().len(), 6int,
    {
        let ghost t0 = self.toks();
        proof {
            lemma_p_factor(t0);
        }
        let mut expr = match self.factor() {
            Ok(e) => e,
            Err(e) => return Err(e),
        };
        loop
            invariant
                t0 == old(self).toks(),
                p_term(t0) == p_term_rest(self.toks(), expr@),
                self.toks().len() <= t0.len(),
            decreases self.toks().len(),
        {
            let is_additive = match self.peek() {
                Some(Token::Operator(op)) => *op == Math::Plus || *op == Math::Minus || *op == Math::Modulo,
                _ => false,
            };
            assert(is_additive == (self.toks().len() > 0 && additive(self.toks()[0])));
            if !is_additive {
                return Ok(expr);
            }
            let ghost before = self.toks();
            let op = match self.advance() {
                Some(Token::Operator(op)) => op,
                _ => return Ok(expr),
            };
            proof {
                lemma_p_factor(self.toks());
            }
            let right = match self.factor() {
                Ok(e) => e,
                Err(e) => return Err(e),
            };
            expr = Expr::Binary { operator: BinaryOp::Arithmetic(op), left: Box::new(expr), right: Box::new(right) };
            assert(before[0] == TokenV::Operator(op));
        }
    }

    /// factor -> power ( ( "/" | "*" ) power )*
    fn factor(&mut self) -> (r: Result<Expr, ParseError>)
        ensures
            expr_result(r) == p_factor(old(self).toks()).0,
            final(self).toks() == p_factor(old(self).toks()).1,
        decreases old(self).toks().len(), 4int,
    {
        let ghost t0 = self.toks();
        proof {
            lemma_p_power(t0);
        }
        let mut expr = match self.power() {
            Ok(e) => e,
            Err(e) => return Err(e),
        };
        loop
            invariant
                t0 == old(self).toks(),
                p_factor(t0) == p_factor_rest(self.toks(), expr@),
                self.toks().len() <= t0.len(),
            decreases self.toks().len(),
        {
            let is_multiplicative = match self.peek() {
                Some(Token::Operator(op)) => *op == Math::Times || *op == Math::Division,
                _ => false,
            };
            assert(is_multiplicative == (self.toks().len() > 0 && multiplicative(self.toks()[0])));
            if !is_multiplicative {
                return Ok(expr);
            }
            let ghost before = self.toks();
            let op = match self.advance() {
                Some(Token::Operator(op)) => op,
                _ => return Ok(expr),
            };
            proof {
                lemma_p_power(self.toks());
            }
            let right = match self.power() {
                Ok(e) => e,
                Err(e) => return Err(e),
            };
            expr = Expr::Binary { operator: BinaryOp::Arithmetic(op), left: Box::new(expr), right: Box::new(right) };
            assert(before[0] == TokenV::Operator(op));
        }
    }

    /// power -> unary ( "**" power )?
    fn power(&mut self) -> (r: Result<Expr, ParseError>)
        ensures
            expr_result(r) == p_power(old(self).toks()).0,
            final(self).toks() == p_power(old(self).toks()).1,
        decreases old(self).toks().len(), 2int,
    {
        let ghost t0 = self.toks();
        proof {
            lemma_p_unary(t0);
        }
        let left = match self.unary() {
            Ok(e) => e,
            Err(e) => return Err(e),
        };
        let is_power = match self.peek() {
            Some(Token::Operator(Math::Power)) => true,
            _ => false,
        };
        if is_power {
            let _ = self.advance();
            let right = match self.power() {
                Ok(e) => e,
                Err(e) => return Err(e),
            };
            Ok(Expr::Binary { operator: BinaryOp::Arithmetic(Math::Power), left: Box::new(left), right: Box::new(right) })
        } else {
            Ok(left)
        }
    }

    /// unary -> "-" unary | primary
    fn unary(&mut self) -> (r: Result<Expr, ParseError>)
        ensures
            expr_result(r) == p_unary(old(self).toks()).0,
            final(self).toks() == p_unary(old(self).toks()).1,
        decreases old(self).toks().len(), 1int,
    {
        let is_minus = match self.peek() {
            Some(Token::Operator(Math::Minus)) => true,
            _ => false,
        };
        if is_minus {
            let _ = self.advance();
            let right = match self.unary() {
                Ok(e) => e,
                Err(e) => return Err(e),
            };
            Ok(Expr::Unary { operator: UnaryOp::Negate, right: Box::new(right) })
        } else {
            self.primary()
        }
    }

    /// primary -> INTEGER | STRING | IDENTIFIER | "(" expression ")"
    fn primary(&mut self) -> (r: Result<Expr, ParseError>)
        ensures
            expr_result(r) == p_primary(old(self).toks()).0,
            final(self).toks() == p_primary(old(self).toks()).1,
        decreases old(self).toks().len(), 0int,
    {
        match self.advance() {
            Some(Token::Integer(number)) => Ok(Expr::Literal(LiteralValue::Integer(number))),
            Some(Token::String(s)) => Ok(Expr::Literal(LiteralValue::String(s))),
            Some(Token::Identifier(name)) => Ok(Expr::Variable { name }),
            Some(Token::Paran(Side::Left)) => {
                let expr = match self.expression() {
                    Ok(e) => e,
                    Err(e) => return Err(e),
                };
                match self.advance() {
                    Some(Token::Paran(Side::Right)) => Ok(Expr::Grouping { expression: Box::new(expr) }),
                    _ => Err(ParseError::ExpectedRightParen),
                }
            },
            _ => Err(ParseError::ExpectedExpression),
        }
    }

    /// Peek at the next token.
    fn peek(&self) -> (r: Option<&Token>)
        ensures
            match r {
                Some(t) => self.toks().len() > 0 && t@ == self.toks()[0],
                None => self.toks().len() == 0,
            },
    {
        if self.tokens.len() > 0 {
            Some(&self.tokens[0])
        } else {
            None
        }
    }
}

} // verus!
