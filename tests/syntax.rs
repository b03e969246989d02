use exprcalc::{
    compile, get_function_token, parse, parse_str, tokenize, BinOp, Env, EvalError, Func, Instr,
    Kind, LexError, Node, ParseError, Precedence, Token, UnOp,
};

fn is_int(n: &Node, text: &str) -> bool {
    matches!(n, Node::Number(l) if l.kind == Kind::Integer && l.text == text)
}

#[test]
fn tokens_of_an_expression() {
    let ts = tokenize("x = 2.5 * (abs y1 - 10) ^ 3").unwrap();
    assert_eq!(ts.len(), 13);
    assert!(matches!(&ts[0], Token::Ident(s) if s == "x"));
    assert!(matches!(ts[1], Token::Equals));
    assert!(matches!(&ts[2], Token::Num(l) if l.kind == Kind::Float && l.text == "2.5"));
    assert!(matches!(ts[3], Token::Mul));
    assert!(matches!(ts[4], Token::LParen));
    assert!(matches!(ts[5], Token::Func(Func::Abs)));
    assert!(matches!(&ts[6], Token::Ident(s) if s == "y1"));
    assert!(matches!(ts[7], Token::Sub));
    assert!(matches!(&ts[8], Token::Num(l) if l.kind == Kind::Integer && l.text == "10"));
    assert!(matches!(ts[9], Token::RParen));
    assert!(matches!(ts[10], Token::Pow));
    assert!(matches!(&ts[11], Token::Num(l) if l.text == "3"));
    assert!(matches!(ts[12], Token::Eof));
}

#[test]
fn empty_text_is_just_eof() {
    let ts = tokenize("  ").unwrap();
    assert_eq!(ts.len(), 1);
    assert!(matches!(ts[0], Token::Eof));
}

#[test]
fn invalid_character() {
    assert_eq!(tokenize("2 $ 3").unwrap_err(), LexError::InvalidChar('$'));
    assert!(matches!(parse_str("1 + #"), Err(ParseError::Lex(LexError::InvalidChar('#')))));
}

#[test]
fn malformed_literals() {
    assert_eq!(tokenize("1.2.3").unwrap_err(), LexError::MalformedLiteral);
    assert_eq!(tokenize("1.").unwrap_err(), LexError::MalformedLiteral);
    assert_eq!(tokenize(".5").unwrap_err(), LexError::MalformedLiteral);
}

#[test]
fn keywords() {
    assert!(matches!(get_function_token("floor"), Some(Token::Func(Func::Floor))));
    assert!(matches!(get_function_token("arctan"), Some(Token::Func(Func::Arctan))));
    assert!(get_function_token("Floor").is_none());
    assert!(get_function_token("lnx").is_none());
    let ts = tokenize("lnx ln").unwrap();
    assert!(matches!(&ts[0], Token::Ident(s) if s == "lnx"));
    assert!(matches!(ts[1], Token::Func(Func::Ln)));
}

#[test]
fn precedences() {
    assert_eq!(Token::Add.get_precedence(), Precedence::Sum);
    assert_eq!(Token::Div.get_precedence(), Precedence::Product);
    assert_eq!(Token::Pow.get_precedence(), Precedence::Power);
    assert_eq!(Token::Func(Func::Ln).get_precedence(), Precedence::Function);
    assert_eq!(Token::Equals.get_precedence(), Precedence::Assign);
    assert_eq!(Token::LParen.get_precedence(), Precedence::Lowest);
    assert!(Precedence::Prefix.level() < Precedence::Assign.level());
}

#[test]
fn product_binds_tighter_than_sum() {
    let n = parse_str("2 + 3 * 4").unwrap();
    match n {
        Node::Binary(BinOp::Add, a, b) => {
            assert!(is_int(&a, "2"));
            match *b {
                Node::Binary(BinOp::Mul, c, d) => {
                    assert!(is_int(&c, "3"));
                    assert!(is_int(&d, "4"));
                }
                _ => panic!("expected a product"),
            }
        }
        _ => panic!("expected a sum"),
    }
}

#[test]
fn subtraction_associates_left() {
    let n = parse_str("8 - 3 - 2").unwrap();
    match n {
        Node::Binary(BinOp::Sub, a, b) => {
            assert!(matches!(*a, Node::Binary(BinOp::Sub, _, _)));
            assert!(is_int(&b, "2"));
        }
        _ => panic!("expected a difference"),
    }
}

#[test]
fn power_associates_right() {
    let n = parse_str("2 ^ 3 ^ 2").unwrap();
    match n {
        Node::Binary(BinOp::Pow, a, b) => {
            assert!(is_int(&a, "2"));
            assert!(matches!(*b, Node::Binary(BinOp::Pow, _, _)));
        }
        _ => panic!("expected a power"),
    }
}

#[test]
fn negation_binds_tighter_than_power() {
    let n = parse_str("-2 ^ 2").unwrap();
    match n {
        Node::Binary(BinOp::Pow, a, b) => {
            assert!(matches!(*a, Node::Unary(UnOp::Neg, _)));
            assert!(is_int(&b, "2"));
        }
        _ => panic!("expected a power"),
    }
}

#[test]
fn assignment_takes_the_rest() {
    let n = parse_str("x = 2 + 3").unwrap();
    match n {
        Node::Assign(name, v) => {
            assert_eq!(name, "x");
            assert!(matches!(*v, Node::Binary(BinOp::Add, _, _)));
        }
        _ => panic!("expected an assignment"),
    }
    let n = parse_str("x = y = 1").unwrap();
    match n {
        Node::Assign(_, v) => assert!(matches!(*v, Node::Assign(_, _))),
        _ => panic!("expected an assignment"),
    }
}

#[test]
fn function_application() {
    let n = parse_str("abs -3 + 1").unwrap();
    match n {
        Node::Binary(BinOp::Add, a, _) => match *a {
            Node::Unary(UnOp::Abs, v) => assert!(matches!(*v, Node::Unary(UnOp::Neg, _))),
            _ => panic!("expected abs"),
        },
        _ => panic!("expected a sum"),
    }
    let n = parse_str("log(8)(2)").unwrap();
    assert!(matches!(n, Node::Log(_, _)));
    let n = parse_str("floor(2.5 * 2)").unwrap();
    assert!(matches!(n, Node::Unary(UnOp::Floor, _)));
}

#[test]
fn parse_errors() {
    assert!(matches!(parse_str("(1 + 2"), Err(ParseError::UnmatchedParen)));
    assert!(matches!(parse_str("1 + 2)"), Err(ParseError::UnmatchedParen)));
    assert!(matches!(parse_str("1 +"), Err(ParseError::UnexpectedEof)));
    assert!(matches!(parse_str("2 = 3"), Err(ParseError::InvalidAssignTarget)));
    assert!(matches!(parse_str("sin(1)"), Err(ParseError::UnsupportedFunction(Func::Sin))));
    assert!(matches!(parse_str("* 2"), Err(ParseError::UnexpectedToken(Token::Mul))));
    assert!(matches!(parse(&vec![Token::Add]), Err(ParseError::UnexpectedEof)));
}

#[test]
fn text_to_program_follows_precedence() {
    let mut env = Env::new();
    let (code, r) = compile(parse_str("2 + 3 * 4").unwrap(), &mut env);
    assert_eq!(r.unwrap(), Kind::Integer);
    assert_eq!(code.len(), 5);
    assert!(matches!(&code[0], Instr::Push(l) if l.text == "2"));
    assert!(matches!(&code[1], Instr::Push(l) if l.text == "3"));
    assert!(matches!(&code[2], Instr::Push(l) if l.text == "4"));
    assert!(matches!(code[3], Instr::Combine(BinOp::Mul, Kind::Integer)));
    assert!(matches!(code[4], Instr::Combine(BinOp::Add, Kind::Integer)));
    let (code, r) = compile(parse_str("2 ^ 3 ^ 2").unwrap(), &mut env);
    assert_eq!(r.unwrap(), Kind::Integer);
    assert!(matches!(code[3], Instr::PowInt));
    assert!(matches!(code[4], Instr::PowInt));
}

#[test]
fn text_assignment_then_lookup() {
    let mut env = Env::new();
    let (_, r) = compile(parse_str("x = 2 + 3").unwrap(), &mut env);
    assert_eq!(r.unwrap(), Kind::Integer);
    let (_, r) = compile(parse_str("x * 1.5").unwrap(), &mut env);
    assert_eq!(r.unwrap(), Kind::Float);
    let (_, r) = compile(parse_str("y").unwrap(), &mut env);
    assert!(matches!(r, Err(EvalError::UnknownVar(name)) if name == "y"));
}

#[test]
fn exponent_literals() {
    let ts = tokenize("1e5 2.5e-3 2E+4").unwrap();
    assert_eq!(ts.len(), 4);
    assert!(matches!(&ts[0], Token::Num(l) if l.kind == Kind::Float && l.text == "1e5"));
    assert!(matches!(&ts[1], Token::Num(l) if l.kind == Kind::Float && l.text == "2.5e-3"));
    assert!(matches!(&ts[2], Token::Num(l) if l.kind == Kind::Float && l.text == "2E+4"));
    let ts = tokenize("2ex").unwrap();
    assert!(matches!(&ts[0], Token::Num(l) if l.kind == Kind::Integer && l.text == "2"));
    assert!(matches!(&ts[1], Token::Ident(s) if s == "ex"));
    let ts = tokenize("1.5e-").unwrap();
    assert!(matches!(&ts[0], Token::Num(l) if l.kind == Kind::Float && l.text == "1.5"));
    assert!(matches!(&ts[1], Token::Ident(s) if s == "e"));
    assert!(matches!(ts[2], Token::Sub));
    assert_eq!(tokenize("1e5.2").unwrap_err(), LexError::MalformedLiteral);
}

#[test]
fn assignment_binds_loosest() {
    assert!(matches!(parse_str("2 * x = 3"), Err(ParseError::InvalidAssignTarget)));
    assert!(matches!(parse_str("-x = 3"), Err(ParseError::InvalidAssignTarget)));
    let n = parse_str("(x = 3) * 2").unwrap();
    match n {
        Node::Binary(BinOp::Mul, a, _) => assert!(matches!(*a, Node::Assign(_, _))),
        _ => panic!("expected a product"),
    }
}

#[test]
fn division_groups_left() {
    let n = parse_str("8 / 4 / 2").unwrap();
    match n {
        Node::Binary(BinOp::Div, a, b) => {
            assert!(matches!(*a, Node::Binary(BinOp::Div, _, _)));
            assert!(is_int(&b, "2"));
        }
        _ => panic!("expected a quotient"),
    }
}
