//! Evaluation core of an arithmetic expression calculator over a numeric
//! tower of integers, rationals, floats and complex numbers.
//!
//! The library decides everything that depends on the shape of an
//! expression and on the representation of its values: tokens, the parse
//! tree, the promotion of operands, which operations fail, and the order in
//! which work is done. Evaluation turns a tree into a stack program whose
//! every step names the representation it works in; a numeric backend runs
//! that program on arbitrary-precision values.

pub mod ast;
pub mod eval;
pub mod expr;
pub mod lexer;
pub mod num;
pub mod parser;

pub use ast::{get_function_token, Func, Precedence, Token};
pub use eval::{Env, EvalError};
pub use expr::{compile, BinOp, Instr, Node, UnOp};
pub use lexer::{tokenize, LexError};
pub use num::{Kind, Literal, NumError};
pub use parser::{parse, parse_str, ParseError};
