//! A small QBasic: lexer, recursive-descent parser, expression evaluator and a
//! step-wise interpreter, with a program editing session on top.

pub mod text;
pub mod token;
pub mod lexer;
pub mod ast;
pub mod parser;
pub mod names;
pub mod value;
pub mod event;
pub mod action;
pub mod interpreter;
pub mod display;
pub mod session;
