use vstd::prelude::*;
use vstd::string::*;
use crate::num::Literal;

verus! {

/// The function keywords of the language.
#[derive(PartialEq, Eq, Structural, Clone, Copy, Debug)]
pub enum Func {
    Abs,
    Floor,
    Ln,
    Log,
    Sin,
    Cos,
    Tan,
    Arcsin,
    Arccos,
    Arctan,
}

/// A classified piece of source text.
#[derive(Clone, Debug)]
pub enum Token {
    Num(Literal),
    Add,
    Sub,
    Mul,
    Div,
    Pow,
    RParen,
    LParen,
    Equals,
    Func(Func),
    Ident(String),
    Eof,
}

/// Binding classes used by the parser, weakest first.
#[derive(PartialEq, Eq, Structural, Clone, Copy, Debug)]
pub enum Precedence {
    Lowest,
    Sum,
    Product,
    Power,
    Function,
    Prefix,
    Assign,
}

impl Precedence {
    /// Position in the order `Lowest < Sum < Product < Power < Function < Prefix < Assign`.
    pub open spec fn rank(self) -> nat {
        match self {
            Precedence::Lowest => 0,
            Precedence::Sum => 1,
            Precedence::Product => 2,
            Precedence::Power => 3,
            Precedence::Function => 4,
            Precedence::Prefix => 5,
            Precedence::Assign => 6,
        }
    }

    pub fn level(&self) -> (r: u8)
        ensures
            r as nat == self.rank(),
    {
        match self {
            Precedence::Lowest => 0,
            Precedence::Sum => 1,
            Precedence::Product => 2,
            Precedence::Power => 3,
            Precedence::Function => 4,
            Precedence::Prefix => 5,
            Precedence::Assign => 6,
        }
    }
}

impl Token {
    /// The binding class of a token in infix or function position.
    pub open spec fn precedence(&self) -> Precedence {
        match self {
            Token::Add | Token::Sub => Precedence::Sum,
            Token::Mul | Token::Div => Precedence::Product,
            Token::Pow => Precedence::Power,
            Token::Func(_) => Precedence::Function,
            Token::Equals => Precedence::Assign,
            _ => Precedence::Lowest,
        }
    }

    /// Returns the precedence of this token
    pub fn get_precedence(&self) -> (r: Precedence)
        ensures
            r == self.precedence(),
    {
        match self {
            Token::Add | Token::Sub => Precedence::Sum,
            Token::Mul | Token::Div => Precedence::Product,
            Token::Pow => Precedence::Power,
            Token::Func(_) => Precedence::Function,
            Token::Equals => Precedence::Assign,
            _ => Precedence::Lowest,
        }
    }
}

/// The function that a keyword names, if it is one.
pub open spec fn keyword(s: Seq<char>) -> Option<Func> {
    if s == "abs"@ {
        Some(Func::Abs)
    } else if s == "floor"@ {
        Some(Func::Floor)
    } else if s == "log"@ {
        Some(Func::Log)
    } else if s == "ln"@ {
        Some(Func::Ln)
    } else if s == "sin"@ {
        Some(Func::Sin)
    } else if s == "cos"@ {
        Some(Func::Cos)
    } else if s == "tan"@ {
        Some(Func::Tan)
    } else if s == "arcsin"@ {
        Some(Func::Arcsin)
    } else if s == "arccos"@ {
        Some(Func::Arccos)
    } else if s == "arctan"@ {
        Some(Func::Arctan)
    } else {
        None
    }
}

/// Whether two strings hold the same characters.
pub fn same_text(s: &str, t: &str) -> (r: bool)
    ensures
        r == (s@ == t@),
{
    let n = s.unicode_len();
    if n != t.unicode_len() {
        return false;
    }
    let mut i: usize = 0;
    while i < n
        invariant
            n == s@.len() == t@.len(),
            i <= n,
            forall|j: int| 0 <= j < i ==> s@[j] == t@[j],
        decreases n - i,
    {
        if s.get_char(i) != t.get_char(i) {
            return false;
        }
        i = i + 1;
    }
    assert(s@ =~= t@);
    true
}

/// The function token for a keyword, exact lowercase match.
pub fn get_function_token(s: &str) -> (r: Option<Token>)
    ensures
        r is Some <==> keyword(s@) is Some,
        r is Some ==> r->Some_0 == Token::Func(keyword(s@)->Some_0),
{
    let f = if same_text(s, "abs") {
        Some(Func::Abs)
    } else if same_text(s, "floor") {
        Some(Func::Floor)
    } else if same_text(s, "log") {
        Some(Func::Log)
    } else if same_text(s, "ln") {
        Some(Func::Ln)
    } else if same_text(s, "sin") {
        Some(Func::Sin)
    } else if same_text(s, "cos") {
        Some(Func::Cos)
    } else if same_text(s, "tan") {
        Some(Func::Tan)
    } else if same_text(s, "arcsin") {
        Some(Func::Arcsin)
    } else if same_text(s, "arccos") {
        Some(Func::Arccos)
    } else if same_text(s, "arctan") {
        Some(Func::Arctan)
    } else {
        None
    };
    match f {
        Some(g) => Some(Token::Func(g)),
        None => None,
    }
}

} // verus!
