use exprcalc::{compile, BinOp, Env, EvalError, Instr, Kind, Literal, Node, NumError, UnOp};

fn lit(kind: Kind, text: &str) -> Node {
    Node::Number(Literal { kind, text: text.to_string() })
}

fn integer(text: &str) -> Node {
    lit(Kind::Integer, text)
}

fn bin(op: BinOp, a: Node, b: Node) -> Node {
    Node::Binary(op, Box::new(a), Box::new(b))
}

fn un(op: UnOp, a: Node) -> Node {
    Node::Unary(op, Box::new(a))
}

fn kinds() -> Vec<Kind> {
    vec![Kind::Integer, Kind::Rational, Kind::Float, Kind::Complex]
}

fn sample(kind: Kind) -> Node {
    match kind {
        Kind::Integer => integer("1"),
        Kind::Rational => lit(Kind::Rational, "1/2"),
        Kind::Float => lit(Kind::Float, "1.5"),
        Kind::Complex => lit(Kind::Complex, "(1,0)"),
    }
}

#[test]
fn test_add() {
    let x = integer("2");
    let mut env = Env::new();
    env.set("e".to_string(), Kind::Float);
    let y = lit(Kind::Complex, "(12,25)");
    let ast = bin(BinOp::Div, x, y);
    let ast = un(UnOp::Neg, ast);
    let (_, r) = compile(ast, &mut env);
    assert!(matches!(r, Err(EvalError::Num(NumError::InvalidOp(_)))));
}

#[test]
fn test_ln() {
    let num = lit(Kind::Float, "2.718281828459045");
    let mut env = Env::new();
    let ast = un(UnOp::Ln, num);
    let (code, r) = compile(ast, &mut env);
    assert!(matches!(r, Ok(Kind::Float)));
    assert_eq!(code.len(), 2);
    assert!(matches!(code[1], Instr::Unary(UnOp::Ln, Kind::Float)));
}

#[test]
fn arith_takes_the_wider_kind() {
    for a in kinds() {
        for b in kinds() {
            for op in [BinOp::Add, BinOp::Sub, BinOp::Mul] {
                let mut env = Env::new();
                let (code, r) = compile(bin(op, sample(a), sample(b)), &mut env);
                let wider = if a.rank_of() >= b.rank_of() { a } else { b };
                assert_eq!(r.unwrap(), wider);
                assert_eq!(code.len(), 3);
                assert!(matches!(code[2], Instr::Combine(o, k) if o == op && k == wider));
            }
        }
    }
}

#[test]
fn exact_by_complex_division_fails() {
    for a in [Kind::Integer, Kind::Rational] {
        let mut env = Env::new();
        let (code, r) = compile(bin(BinOp::Div, sample(a), sample(Kind::Complex)), &mut env);
        assert!(matches!(r, Err(EvalError::Num(NumError::InvalidOp(_)))));
        assert_eq!(code.len(), 2);
    }
}

#[test]
fn complex_by_exact_division_succeeds() {
    for b in [Kind::Integer, Kind::Rational] {
        let mut env = Env::new();
        let (code, r) = compile(bin(BinOp::Div, sample(Kind::Complex), sample(b)), &mut env);
        assert_eq!(r.unwrap(), Kind::Complex);
        assert!(matches!(code[2], Instr::Combine(BinOp::Div, Kind::Complex)));
    }
}

#[test]
fn integer_division_stays_integer() {
    let mut env = Env::new();
    let (_, r) = compile(bin(BinOp::Div, integer("7"), integer("2")), &mut env);
    assert_eq!(r.unwrap(), Kind::Integer);
}

#[test]
fn floor_restriction() {
    let mut env = Env::new();
    let (_, r) = compile(un(UnOp::Floor, integer("5")), &mut env);
    assert!(matches!(r, Err(EvalError::Num(NumError::InvalidOp(_)))));
    let (_, r) = compile(un(UnOp::Floor, lit(Kind::Rational, "7/2")), &mut env);
    assert_eq!(r.unwrap(), Kind::Rational);
    let (_, r) = compile(un(UnOp::Floor, lit(Kind::Float, "3.7")), &mut env);
    assert_eq!(r.unwrap(), Kind::Float);
    let (_, r) = compile(un(UnOp::Floor, sample(Kind::Complex)), &mut env);
    assert!(matches!(r, Err(EvalError::Num(NumError::InvalidOp(_)))));
}

#[test]
fn ln_of_integer_is_float() {
    let mut env = Env::new();
    let (code, r) = compile(un(UnOp::Ln, integer("1")), &mut env);
    assert_eq!(r.unwrap(), Kind::Float);
    assert!(matches!(code[1], Instr::Unary(UnOp::Ln, Kind::Float)));
    let (_, r) = compile(un(UnOp::Ln, sample(Kind::Complex)), &mut env);
    assert_eq!(r.unwrap(), Kind::Complex);
}

#[test]
fn abs_and_neg_keep_kind() {
    for k in kinds() {
        let mut env = Env::new();
        let (_, r) = compile(un(UnOp::Abs, sample(k)), &mut env);
        assert_eq!(r.unwrap(), k);
        let (_, r) = compile(un(UnOp::Neg, sample(k)), &mut env);
        assert_eq!(r.unwrap(), k);
    }
}

#[test]
fn log_fails_like_division() {
    let mut env = Env::new();
    let log = |a: Node, b: Node| Node::Log(Box::new(a), Box::new(b));
    let (_, r) = compile(log(integer("8"), sample(Kind::Complex)), &mut env);
    assert!(matches!(r, Err(EvalError::Num(NumError::InvalidOp(_)))));
    let (_, r) = compile(log(lit(Kind::Rational, "1/2"), sample(Kind::Complex)), &mut env);
    assert!(matches!(r, Err(EvalError::Num(NumError::InvalidOp(_)))));
    let (code, r) = compile(log(integer("8"), integer("2")), &mut env);
    assert_eq!(r.unwrap(), Kind::Float);
    assert_eq!(code.len(), 5);
    assert!(matches!(code[1], Instr::Unary(UnOp::Log10, Kind::Float)));
    assert!(matches!(code[4], Instr::Combine(BinOp::Div, Kind::Float)));
    let (_, r) = compile(log(sample(Kind::Complex), integer("2")), &mut env);
    assert_eq!(r.unwrap(), Kind::Complex);
}

#[test]
fn power_kinds() {
    let mut env = Env::new();
    let (code, r) = compile(bin(BinOp::Pow, integer("2"), integer("3")), &mut env);
    assert_eq!(r.unwrap(), Kind::Integer);
    assert!(matches!(code[2], Instr::PowInt));
    let (_, r) = compile(bin(BinOp::Pow, integer("2"), lit(Kind::Rational, "1/2")), &mut env);
    assert_eq!(r.unwrap(), Kind::Float);
    let (_, r) = compile(bin(BinOp::Pow, lit(Kind::Rational, "1/2"), integer("2")), &mut env);
    assert_eq!(r.unwrap(), Kind::Rational);
}

#[test]
fn assignment_is_an_expression() {
    let mut env = Env::new();
    let ast = Node::Assign("x".to_string(), Box::new(bin(BinOp::Add, integer("2"), integer("3"))));
    let (code, r) = compile(ast, &mut env);
    assert_eq!(r.unwrap(), Kind::Integer);
    assert_eq!(env.get(&"x".to_string()), Some(Kind::Integer));
    assert!(matches!(&code[3], Instr::Store(name) if name == "x"));
    let (code, r) = compile(Node::Ident("x".to_string()), &mut env);
    assert_eq!(r.unwrap(), Kind::Integer);
    assert!(matches!(&code[0], Instr::Load(name) if name == "x"));
}

#[test]
fn reassignment_replaces_kind() {
    let mut env = Env::new();
    env.set("x".to_string(), Kind::Integer);
    env.set("x".to_string(), Kind::Complex);
    assert_eq!(env.get(&"x".to_string()), Some(Kind::Complex));
    assert_eq!(env.get(&"y".to_string()), None);
}

#[test]
fn unknown_identifier_fails() {
    let mut env = Env::new();
    let (code, r) = compile(Node::Ident("y".to_string()), &mut env);
    assert!(matches!(r, Err(EvalError::UnknownVar(name)) if name == "y"));
    assert!(code.is_empty());
}

#[test]
fn assignment_before_failure_stays() {
    let mut env = Env::new();
    let ast = bin(
        BinOp::Add,
        Node::Assign("a".to_string(), Box::new(integer("1"))),
        Node::Ident("b".to_string()),
    );
    let (code, r) = compile(ast, &mut env);
    assert!(matches!(r, Err(EvalError::UnknownVar(name)) if name == "b"));
    assert_eq!(env.get(&"a".to_string()), Some(Kind::Integer));
    assert_eq!(code.len(), 2);
}

#[test]
fn kind_rules_directly() {
    assert_eq!(Kind::Integer.promote(Kind::Rational), Kind::Rational);
    assert_eq!(Kind::Complex.promote(Kind::Float), Kind::Complex);
    assert!(Kind::Integer.div(Kind::Complex).is_err());
    assert!(Kind::Rational.div(Kind::Complex).is_err());
    assert_eq!(Kind::Complex.div(Kind::Integer).unwrap(), Kind::Complex);
    assert_eq!(Kind::Float.div(Kind::Complex).unwrap(), Kind::Complex);
    assert_eq!(Kind::Integer.ln(), Kind::Float);
    assert_eq!(Kind::Rational.to_float().unwrap(), Kind::Float);
    assert!(Kind::Complex.to_float().is_err());
    assert_eq!(Kind::Integer.log(Kind::Integer).unwrap(), Kind::Float);
    assert!(Kind::Integer.log(Kind::Complex).is_err());
}

#[test]
fn refusal_reasons() {
    let reason = |r: Result<Kind, NumError>| match r {
        Err(NumError::InvalidOp(s)) => s,
        Ok(_) => String::new(),
    };
    assert_eq!(reason(Kind::Integer.floor()), "Cannot floor an Integer");
    assert_eq!(reason(Kind::Complex.floor()), "Cannot floor a Complex");
    assert_eq!(reason(Kind::Integer.div(Kind::Complex)), "Cannot divide Integer by Complex");
    assert_eq!(reason(Kind::Rational.div(Kind::Complex)), "Cannot divide Rational by Complex");
    assert_eq!(reason(Kind::Rational.log(Kind::Complex)), "Cannot divide Rational by Complex");
}

#[test]
fn program_of_log_takes_both_logs() {
    let mut env = Env::new();
    let ast = Node::Log(Box::new(lit(Kind::Float, "100.0")), Box::new(lit(Kind::Float, "10.0")));
    let (code, r) = compile(ast, &mut env);
    assert_eq!(r.unwrap(), Kind::Float);
    assert_eq!(code.len(), 5);
    assert!(matches!(code[1], Instr::Unary(UnOp::Log10, Kind::Float)));
    assert!(matches!(code[3], Instr::Unary(UnOp::Log10, Kind::Float)));
    assert!(matches!(code[4], Instr::Combine(BinOp::Div, Kind::Float)));
}

#[test]
fn chained_assignment_program() {
    let mut env = Env::new();
    let ast = bin(
        BinOp::Add,
        Node::Assign("x".to_string(), Box::new(Node::Assign("y".to_string(), Box::new(integer("3"))))),
        Node::Ident("y".to_string()),
    );
    let (code, r) = compile(ast, &mut env);
    assert_eq!(r.unwrap(), Kind::Integer);
    assert_eq!(code.len(), 5);
    assert!(matches!(&code[1], Instr::Store(n) if n == "y"));
    assert!(matches!(&code[2], Instr::Store(n) if n == "x"));
    assert!(matches!(&code[3], Instr::Load(n) if n == "y"));
    assert!(matches!(code[4], Instr::Combine(BinOp::Add, Kind::Integer)));
    assert_eq!(env.get(&"x".to_string()), Some(Kind::Integer));
    assert_eq!(env.get(&"y".to_string()), Some(Kind::Integer));
}
