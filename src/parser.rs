use vstd::prelude::*;
use crate::ast::{Func, Token};
use crate::expr::{BinOp, Node, UnOp};
use crate::lexer::{
    has_invalid_char, laid_out, strip_spaces, token_text, tokenize, tokens_ok, tokens_text,
    LexError,
};
use crate::num::{Kind, Literal};

verus! {

/// Failure to turn text or tokens into a tree.
#[derive(Debug)]
pub enum ParseError {
    /// The text could not be split into tokens.
    Lex(LexError),
    /// The input ended where an operand was expected, or has no end marker.
    UnexpectedEof,
    /// A token that cannot stand where it was found.
    UnexpectedToken(Token),
    /// A `(` without its `)`, or a `)` without its `(`.
    UnmatchedParen,
    /// The left side of `=` is not a bare identifier.
    InvalidAssignTarget,
    /// A function keyword that has no tree node.
    UnsupportedFunction(Func),
}

/// A token sequence whose one end marker stands last.
pub open spec fn well_ended(ts: Seq<Token>) -> bool {
    &&& ts.len() > 0
    &&& ts.last() is Eof
    &&& forall|k: int| 0 <= k < ts.len() - 1 ==> !(#[trigger] ts[k] is Eof)
}

/// The text of a token as the tree keeps it: parentheses and the end
/// marker leave nothing.
pub open spec fn symbol_of(t: Token) -> Seq<Seq<char>> {
    match t {
        Token::LParen | Token::RParen | Token::Eof => Seq::empty(),
        _ => seq![token_text(t)],
    }
}

/// The symbols of a token sequence, in order.
pub open spec fn symbols(ts: Seq<Token>) -> Seq<Seq<char>>
    decreases ts.len(),
{
    if ts.len() == 0 {
        Seq::empty()
    } else {
        symbols(ts.drop_last()) + symbol_of(ts.last())
    }
}

/// The token that writes a binary operator.
pub open spec fn binop_token(op: BinOp) -> Token {
    match op {
        BinOp::Add => Token::Add,
        BinOp::Sub => Token::Sub,
        BinOp::Mul => Token::Mul,
        BinOp::Div => Token::Div,
        BinOp::Pow => Token::Pow,
    }
}

/// The token that writes a unary operator in front of its operand.
pub open spec fn unop_token(op: UnOp) -> Token {
    match op {
        UnOp::Neg => Token::Sub,
        UnOp::Abs => Token::Func(Func::Abs),
        UnOp::Floor => Token::Func(Func::Floor),
        UnOp::Ln => Token::Func(Func::Ln),
        UnOp::Log10 => Token::Func(Func::Log),
    }
}

/// A tree read back left to right: operators in front of their only
/// operand or between their two, `log` in front of both, a target in
/// front of `=` and its value.
pub open spec fn tree_symbols(n: Node) -> Seq<Seq<char>>
    decreases n,
{
    match n {
        Node::Number(l) => seq![l.text@],
        Node::Ident(x) => seq![x@],
        Node::Assign(x, v) => seq![x@, token_text(Token::Equals)] + tree_symbols(*v),
        Node::Unary(op, a) => seq![token_text(unop_token(op))] + tree_symbols(*a),
        Node::Binary(op, a, b) => tree_symbols(*a) + seq![token_text(binop_token(op))]
            + tree_symbols(*b),
        Node::Log(a, b) => seq![token_text(Token::Func(Func::Log))] + tree_symbols(*a)
            + tree_symbols(*b),
    }
}

proof fn lemma_operands_concat(x: Seq<Token>, y: Seq<Token>)
    ensures
        symbols(x + y) == symbols(x) + symbols(y),
    decreases y.len(),
{
    if y.len() == 0 {
        assert(x + y =~= x);
        assert(symbols(y) =~= Seq::<Seq<char>>::empty());
        assert(symbols(x) + symbols(y) =~= symbols(x));
    } else {
        lemma_operands_concat(x, y.drop_last());
        assert((x + y).drop_last() =~= x + y.drop_last());
        assert((x + y).last() == y.last());
        let a = symbols(x);
        let b = symbols(y.drop_last());
        assert((a + b) + symbol_of(y.last()) =~= a + (b + symbol_of(y.last())));
    }
}

/// Symbols of `ts[i..k]` are those of `ts[i..j]` followed by those of `ts[j..k]`.
proof fn lemma_operands_split(ts: Seq<Token>, i: int, j: int, k: int)
    requires
        0 <= i <= j <= k <= ts.len(),
    ensures
        symbols(ts.subrange(i, k)) == symbols(ts.subrange(i, j)) + symbols(
            ts.subrange(j, k),
        ),
{
    assert(ts.subrange(i, k) =~= ts.subrange(i, j) + ts.subrange(j, k));
    lemma_operands_concat(ts.subrange(i, j), ts.subrange(j, k));
}

/// Symbols of a single token.
proof fn lemma_operands_one(ts: Seq<Token>, i: int)
    requires
        0 <= i < ts.len(),
    ensures
        symbols(ts.subrange(i, i + 1)) == symbol_of(ts[i]),
{
    let one = ts.subrange(i, i + 1);
    assert(one.drop_last() =~= Seq::<Token>::empty());
    assert(one.last() == ts[i]);
    assert(symbols(one.drop_last()) =~= Seq::<Seq<char>>::empty());
    assert(Seq::<Seq<char>>::empty() + symbol_of(ts[i]) =~= symbol_of(ts[i]));
}

/// The shape of a tree, with each text taken as its characters.
pub enum Shape {
    Num(Kind, Seq<char>),
    Var(Seq<char>),
    Bin(BinOp, Box<Shape>, Box<Shape>),
    Un(UnOp, Box<Shape>),
    Log(Box<Shape>, Box<Shape>),
    Assign(Seq<char>, Box<Shape>),
}

pub open spec fn shape(n: Node) -> Shape
    decreases n,
{
    match n {
        Node::Number(l) => Shape::Num(l.kind, l.text@),
        Node::Ident(x) => Shape::Var(x@),
        Node::Binary(op, a, b) => Shape::Bin(op, Box::new(shape(*a)), Box::new(shape(*b))),
        Node::Unary(op, a) => Shape::Un(op, Box::new(shape(*a))),
        Node::Log(a, b) => Shape::Log(Box::new(shape(*a)), Box::new(shape(*b))),
        Node::Assign(x, v) => Shape::Assign(x@, Box::new(shape(*v))),
    }
}

/// The node a function keyword builds over its argument; `log` takes a
/// second argument, its base.
pub open spec fn func_op(f: Func) -> Option<UnOp> {
    match f {
        Func::Abs => Some(UnOp::Abs),
        Func::Floor => Some(UnOp::Floor),
        Func::Ln => Some(UnOp::Ln),
        Func::Log => Some(UnOp::Log10),
        _ => None,
    }
}

/// The binary operator an infix token writes.
pub open spec fn infix_of(t: Token) -> Option<BinOp> {
    match t {
        Token::Add => Some(BinOp::Add),
        Token::Sub => Some(BinOp::Sub),
        Token::Mul => Some(BinOp::Mul),
        Token::Div => Some(BinOp::Div),
        Token::Pow => Some(BinOp::Pow),
        _ => None,
    }
}

/// The grammar, for an operand at `ts[pos]`: a literal; a variable; `-`
/// and an expression above every binary operator (negation binds tighter
/// than `^`); `(`, an expression at the lowest threshold, `)`; or a function
/// keyword and an argument above every binary operator (for `log`, two
/// such arguments, value then base). The shape and the position after it.
pub open spec fn g_prefix(ts: Seq<Token>, pos: int) -> Option<(Shape, int)>
    decreases ts.len() - pos, 0int,
{
    if !(0 <= pos < ts.len()) {
        None
    } else {
        match ts[pos] {
            Token::Num(l) => Some((Shape::Num(l.kind, l.text@), pos + 1)),
            Token::Ident(x) => Some((Shape::Var(x@), pos + 1)),
            Token::Sub => match g_expr(ts, pos + 1, 5) {
                Some((v, p)) => Some((Shape::Un(UnOp::Neg, Box::new(v)), p)),
                None => None,
            },
            Token::LParen => match g_expr(ts, pos + 1, 0) {
                Some((v, p)) => if 0 <= p < ts.len() && ts[p] is RParen {
                    Some((v, p + 1))
                } else {
                    None
                },
                None => None,
            },
            Token::Func(f) => match func_op(f) {
                None => None,
                Some(op) => match g_expr(ts, pos + 1, 4) {
                    None => None,
                    Some((v, p)) => if f is Log {
                        if pos < p <= ts.len() {
                            match g_expr(ts, p, 4) {
                                Some((b, q)) => Some((Shape::Log(Box::new(v), Box::new(b)), q)),
                                None => None,
                            }
                        } else {
                            None
                        }
                    } else {
                        Some((Shape::Un(op, Box::new(v)), p))
                    },
                },
            },
            _ => None,
        }
    }
}

/// The grammar, for an expression at `ts[pos]` whose operators all bind
/// tighter than the threshold `min`.
pub open spec fn g_expr(ts: Seq<Token>, pos: int, min: nat) -> Option<(Shape, int)>
    decreases ts.len() - pos, 1int,
{
    match g_prefix(ts, pos) {
        Some((left, p)) => if pos < p <= ts.len() {
            g_rest(ts, left, p, min)
        } else {
            None
        },
        None => None,
    }
}

/// The grammar, after the operand `left` that ends at `p`: while the next
/// token binds tighter than `min`, it takes `left` as its left operand.
/// `+ - * /` take a right operand at their own level, so they group to the
/// left and `* /` bind tighter than `+ -`; `^` takes one just below its
/// level, so it groups to the right. `=` is taken only at the lowest
/// threshold, after a bare variable, and its right side is an expression at
/// the lowest threshold: the whole rest of the input.
pub open spec fn g_rest(ts: Seq<Token>, left: Shape, p: int, min: nat) -> Option<(Shape, int)>
    decreases ts.len() - p, 2int,
{
    if !(0 <= p < ts.len()) {
        None
    } else {
        let t = ts[p];
        let prec = t.precedence().rank();
        if prec <= min {
            Some((left, p))
        } else if t is Equals {
            if min != 0 {
                Some((left, p))
            } else {
                match left {
                    Shape::Var(x) => match g_expr(ts, p + 1, 0) {
                        Some((v, q)) => if p < q <= ts.len() {
                            g_rest(ts, Shape::Assign(x, Box::new(v)), q, min)
                        } else {
                            None
                        },
                        None => None,
                    },
                    _ => None,
                }
            }
        } else {
            match infix_of(t) {
                Some(op) => {
                    let m: nat = if op is Pow {
                        (prec - 1) as nat
                    } else {
                        prec
                    };
                    match g_expr(ts, p + 1, m) {
                        Some((r, q)) => if p < q <= ts.len() {
                            g_rest(ts, Shape::Bin(op, Box::new(left), Box::new(r)), q, min)
                        } else {
                            None
                        },
                        None => None,
                    }
                },
                None => Some((left, p)),
            }
        }
    }
}

/// The tree that a well-ended token sequence denotes, if it is one
/// expression followed by the end marker.
pub open spec fn grammar_parse(ts: Seq<Token>) -> Option<Shape> {
    if !well_ended(ts) {
        None
    } else {
        match g_expr(ts, 0, 0) {
            Some((n, p)) => if 0 <= p < ts.len() && ts[p] is Eof {
                Some(n)
            } else {
                None
            },
            None => None,
        }
    }
}

pub open spec fn parsed(r: Result<(Node, usize), ParseError>) -> Option<(Shape, int)> {
    match r {
        Ok((n, p)) => Some((shape(n), p as int)),
        Err(_) => None,
    }
}

fn copy_literal(l: &Literal) -> (r: Literal)
    ensures
        r.kind == l.kind,
        r.text@ == l.text@,
{
    Literal { kind: l.kind, text: l.text.clone() }
}

fn copy_token(t: &Token) -> (r: Token)
    ensures
        token_text(r) == token_text(*t),
        symbol_of(r) == symbol_of(*t),
{
    match t {
        Token::Num(l) => Token::Num(copy_literal(l)),
        Token::Add => Token::Add,
        Token::Sub => Token::Sub,
        Token::Mul => Token::Mul,
        Token::Div => Token::Div,
        Token::Pow => Token::Pow,
        Token::RParen => Token::RParen,
        Token::LParen => Token::LParen,
        Token::Equals => Token::Equals,
        Token::Func(f) => Token::Func(*f),
        Token::Ident(s) => Token::Ident(s.clone()),
        Token::Eof => Token::Eof,
    }
}

/// An operand: a literal, a variable, a group in parentheses, a negation or
/// a function application. Negation binds its operand tighter than every
/// binary operator; a function binds its argument tighter than every binary
/// operator and looser than a negation.
fn parse_prefix(ts: &Vec<Token>, pos: usize) -> (r: Result<(Node, usize), ParseError>)
    requires
        well_ended(ts@),
        pos < ts@.len(),
    ensures
        r matches Ok((n, p)) ==> pos < p < ts@.len() && tree_symbols(n) == symbols(
            ts@.subrange(pos as int, p as int),
        ),
        !(r matches Err(ParseError::Lex(_))),
        parsed(r) == g_prefix(ts@, pos as int),
    decreases ts@.len() - pos, 0int,
{
    let ghost s = ts@;
    proof {
        lemma_operands_one(s, pos as int);
        assert(s[pos as int] is Eof || pos + 1 < s.len());
    }
    let t = &ts[pos];
    assert(*t == s[pos as int]);
    assert(t is Eof || pos + 1 < ts.len());
    match t {
        Token::Num(l) => Ok((Node::Number(copy_literal(l)), pos + 1)),
        Token::Ident(x) => Ok((Node::Ident(x.clone()), pos + 1)),
        Token::Sub => {
            let (v, p) = parse_expr(ts, pos + 1, 5)?;
            proof {
                lemma_operands_split(s, pos as int, pos + 1, p as int);
            }
            Ok((Node::Unary(UnOp::Neg, Box::new(v)), p))
        },
        Token::LParen => {
            let (v, p) = parse_expr(ts, pos + 1, 0)?;
            match &ts[p] {
                Token::RParen => {
                    proof {
                        lemma_operands_split(s, pos as int, pos + 1, p as int);
                        lemma_operands_split(s, pos as int, p as int, p + 1);
                        lemma_operands_one(s, p as int);
                    }
                    Ok((v, p + 1))
                },
                _ => Err(ParseError::UnmatchedParen),
            }
        },
        Token::Func(f) => {
            let op = match f {
                Func::Abs => UnOp::Abs,
                Func::Floor => UnOp::Floor,
                Func::Ln => UnOp::Ln,
                Func::Log => UnOp::Log10,
                _ => {
                    return Err(ParseError::UnsupportedFunction(*f));
                },
            };
            let (v, p) = parse_expr(ts, pos + 1, 4)?;
            proof {
                lemma_operands_split(s, pos as int, pos + 1, p as int);
            }
            if let Func::Log = f {
                let (b, q) = parse_expr(ts, p, 4)?;
                proof {
                    lemma_operands_split(s, pos as int, p as int, q as int);
                }
                Ok((Node::Log(Box::new(v), Box::new(b)), q))
            } else {
                Ok((Node::Unary(op, Box::new(v)), p))
            }
        },
        Token::Eof => Err(ParseError::UnexpectedEof),
        t => Err(ParseError::UnexpectedToken(copy_token(t))),
    }
}

/// The binary operator of an infix token.
fn infix_op(t: &Token) -> (r: Option<BinOp>)
    ensures
        r is Some <==> (t is Add || t is Sub || t is Mul || t is Div || t is Pow),
        r is Some ==> binop_token(r->Some_0) == *t,
{
    match t {
        Token::Add => Some(BinOp::Add),
        Token::Sub => Some(BinOp::Sub),
        Token::Mul => Some(BinOp::Mul),
        Token::Div => Some(BinOp::Div),
        Token::Pow => Some(BinOp::Pow),
        _ => None,
    }
}

/// Precedence climbing: an operand, then every infix operator that binds
/// tighter than `min`, each with its right operand. `+ - * /` associate to
/// the left, `^` and `=` to the right; the right side of `=` is the whole
/// rest of the expression.
fn parse_expr(ts: &Vec<Token>, pos: usize, min: u8) -> (r: Result<(Node, usize), ParseError>)
    requires
        well_ended(ts@),
        pos < ts@.len(),
    ensures
        r matches Ok((n, p)) ==> pos < p < ts@.len() && tree_symbols(n) == symbols(
            ts@.subrange(pos as int, p as int),
        ),
        !(r matches Err(ParseError::Lex(_))),
        parsed(r) == g_expr(ts@, pos as int, min as nat),
    decreases ts@.len() - pos, 1int,
{
    let ghost s = ts@;
    let (mut left, mut p) = parse_prefix(ts, pos)?;
    loop
        invariant
            well_ended(s),
            s == ts@,
            pos < p < s.len(),
            tree_symbols(left) == symbols(s.subrange(pos as int, p as int)),
            g_expr(s, pos as int, min as nat) == g_rest(s, shape(left), p as int, min as nat),
        ensures
            pos < p < s.len(),
            tree_symbols(left) == symbols(s.subrange(pos as int, p as int)),
            g_expr(s, pos as int, min as nat) == Some((shape(left), p as int)),
        decreases s.len() - p,
    {
        let t = &ts[p];
        assert(*t == s[p as int]);
        let prec = t.get_precedence().level();
        if prec <= min {
            break;
        }
        proof {
            lemma_operands_one(s, p as int);
            lemma_operands_split(s, pos as int, p as int, p + 1);
            assert(s[p as int] is Eof || p + 1 < s.len());
            assert(t is Eof || p + 1 < ts.len());
        }
        if let Token::Equals = t {
            if min != 0 {
                break;
            }
            match left {
                Node::Ident(x) => {
                    let (v, q) = parse_expr(ts, p + 1, 0)?;
                    proof {
                        lemma_operands_split(s, pos as int, p + 1, q as int);
                        assert(seq![x@] =~= symbols(s.subrange(pos as int, p as int)));
                    }
                    left = Node::Assign(x, Box::new(v));
                    p = q;
                },
                _ => {
                    return Err(ParseError::InvalidAssignTarget);
                },
            }
        } else if let Some(op) = infix_op(t) {
            let rmin = if op == BinOp::Pow {
                prec - 1
            } else {
                prec
            };
            let (rhs, q) = parse_expr(ts, p + 1, rmin)?;
            proof {
                lemma_operands_split(s, pos as int, p + 1, q as int);
            }
            left = Node::Binary(op, Box::new(left), Box::new(rhs));
            p = q;
        } else {
            break;
        }
    }
    Ok((left, p))
}

/// Whether the tokens end with their one end marker.
fn check_ended(ts: &Vec<Token>) -> (r: bool)
    ensures
        r == well_ended(ts@),
{
    let n = ts.len();
    if n == 0 {
        return false;
    }
    if !matches!(ts[n - 1], Token::Eof) {
        return false;
    }
    let mut i: usize = 0;
    while i < n - 1
        invariant
            n == ts@.len(),
            n > 0,
            i <= n - 1,
            forall|k: int| 0 <= k < i ==> !(#[trigger] ts@[k] is Eof),
        decreases n - 1 - i,
    {
        if matches!(ts[i], Token::Eof) {
            return false;
        }
        i = i + 1;
    }
    true
}

/// Parses a whole token sequence into one tree. Read back left to right,
/// the tree holds the tokens' operands and operators in their order: the
/// parser decides only how they group.
pub fn parse(ts: &Vec<Token>) -> (r: Result<Node, ParseError>)
    ensures
        !well_ended(ts@) ==> r matches Err(ParseError::UnexpectedEof),
        r matches Ok(n) ==> tree_symbols(n) == symbols(ts@),
        !(r matches Err(ParseError::Lex(_))),
        r is Ok <==> grammar_parse(ts@) is Some,
        r matches Ok(n) ==> grammar_parse(ts@) == Some(shape(n)),
{
    if !check_ended(ts) {
        return Err(ParseError::UnexpectedEof);
    }
    let (n, p) = parse_expr(ts, 0, 0)?;
    match &ts[p] {
        Token::Eof => {
            proof {
                let s = ts@;
                assert(p == s.len() - 1);
                lemma_operands_split(s, 0, p as int, s.len() as int);
                lemma_operands_one(s, p as int);
                assert(s.subrange(p as int, s.len() as int) =~= s.subrange(p as int, p + 1));
                assert(s.subrange(0, s.len() as int) =~= s);
                assert(symbols(s.subrange(0, p as int)) + Seq::<Seq<char>>::empty()
                    =~= symbols(s.subrange(0, p as int)));
            }
            Ok(n)
        },
        Token::RParen => Err(ParseError::UnmatchedParen),
        t => Err(ParseError::UnexpectedToken(copy_token(t))),
    }
}

/// The token sequences that the lexer may make of a text: well formed,
/// holding all of it but its white space, each token read as far as it goes.
pub open spec fn lexes_to(s: Seq<char>, ts: Seq<Token>) -> bool {
    &&& tokens_ok(ts)
    &&& tokens_text(ts) == strip_spaces(s)
    &&& exists|at: Seq<int>| laid_out(s, ts.drop_last(), at)
}

/// Splits text into tokens and parses them. The text is refused by the
/// lexer, or its tokens are refused by the grammar, or the result is the
/// tree that the grammar gives them.
pub fn parse_str(s: &str) -> (r: Result<Node, ParseError>)
    ensures
        has_invalid_char(s@) <==> r matches Err(ParseError::Lex(LexError::InvalidChar(_))),
        r matches Ok(n) ==> exists|ts: Seq<Token>|
            lexes_to(s@, ts) && grammar_parse(ts) == Some(shape(n)) && tree_symbols(n)
                == symbols(ts),
        r is Err && !(r->Err_0 is Lex) ==> exists|ts: Seq<Token>|
            lexes_to(s@, ts) && grammar_parse(ts) is None,
{
    match tokenize(s) {
        Err(e) => Err(ParseError::Lex(e)),
        Ok(ts) => {
            proof {
                assert(well_ended(ts@));
                assert(lexes_to(s@, ts@));
            }
            let r = parse(&ts);
            proof {
                if r is Ok {
                    assert(lexes_to(s@, ts@) && grammar_parse(ts@) == Some(shape(r->Ok_0)));
                } else {
                    assert(lexes_to(s@, ts@) && grammar_parse(ts@) is None);
                }
            }
            r
        },
    }
}

} // verus!
