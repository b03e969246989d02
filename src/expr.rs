use vstd::prelude::*;
use crate::eval::{Env, EvalError};
use crate::num::{Kind, Literal, NumError};

verus! {

/// Operators with two operands.
#[derive(PartialEq, Eq, Structural, Clone, Copy, Debug)]
pub enum BinOp {
    Add,
    Sub,
    Mul,
    Div,
    Pow,
}

/// Operators with one operand.
#[derive(PartialEq, Eq, Structural, Clone, Copy, Debug)]
pub enum UnOp {
    Neg,
    Abs,
    Floor,
    Ln,
    Log10,
}

/// An expression tree; each node owns its children.
#[derive(Debug)]
pub enum Node {
    Number(Literal),
    Binary(BinOp, Box<Node>, Box<Node>),
    Unary(UnOp, Box<Node>),
    /// Logarithm of the first operand to the base of the second.
    Log(Box<Node>, Box<Node>),
    Ident(String),
    Assign(String, Box<Node>),
}

/// One step of a stack program. Each step names the representation it
/// works in; operands narrower than that are first promoted to it.
#[derive(Debug)]
pub enum Instr {
    /// Pushes the value of a literal.
    Push(Literal),
    /// Pushes a copy of a variable's value.
    Load(String),
    /// Assigns the top value to a variable and leaves it on the stack.
    Store(String),
    /// Replaces the top value by the operator applied to it in the given
    /// representation.
    Unary(UnOp, Kind),
    /// Pops the right operand, then the left, promotes both to the given
    /// representation and pushes the result of the operator there.
    Combine(BinOp, Kind),
    /// Pops an Integer exponent and raises the value below to it.
    PowInt,
}

/// The representation of each assigned variable, by name.
pub type Vars = Map<Seq<char>, Kind>;

/// Why an evaluation fails, as contracts see it.
pub enum Fault {
    UnknownVar(Seq<char>),
    InvalidOp,
}

pub open spec fn fault_of(e: EvalError) -> Fault {
    match e {
        EvalError::UnknownVar(s) => Fault::UnknownVar(s@),
        EvalError::Num(_) => Fault::InvalidOp,
    }
}

pub open spec fn outcome_of(r: Result<Kind, EvalError>) -> Result<Kind, Fault> {
    match r {
        Ok(k) => Ok(k),
        Err(e) => Err(fault_of(e)),
    }
}

/// Representation of a unary operation's result, or its refusal.
pub open spec fn unary_kind(op: UnOp, k: Kind) -> Result<Kind, Fault> {
    match op {
        UnOp::Neg | UnOp::Abs => Ok(k),
        UnOp::Floor => if k.has_floor() {
            Ok(k)
        } else {
            Err(Fault::InvalidOp)
        },
        UnOp::Ln | UnOp::Log10 => Ok(k.inexact()),
    }
}

/// Representation of a binary operation's result, or its refusal.
pub open spec fn binary_kind(op: BinOp, a: Kind, b: Kind) -> Result<Kind, Fault> {
    match op {
        BinOp::Add | BinOp::Sub | BinOp::Mul => Ok(a.join(b)),
        BinOp::Div => if a.divides(b) {
            Ok(a.join(b))
        } else {
            Err(Fault::InvalidOp)
        },
        BinOp::Pow => Ok(a.pow_spec(b)),
    }
}

/// Representation of `log(a, b)`, or its refusal.
pub open spec fn log_kind(a: Kind, b: Kind) -> Result<Kind, Fault> {
    if a.divides(b) {
        Ok(a.inexact().join(b.inexact()))
    } else {
        Err(Fault::InvalidOp)
    }
}

/// Evaluation of a tree, as far as representations go: the result (or why
/// it fails) and the variables afterwards. Children are evaluated left to
/// right; assignments made before a failure stay made.
pub open spec fn eval_kind(n: Node, env: Vars) -> (Result<Kind, Fault>, Vars)
    decreases n,
{
    match n {
        Node::Number(l) => (Ok(l.kind), env),
        Node::Ident(x) => if env.contains_key(x@) {
            (Ok(env[x@]), env)
        } else {
            (Err(Fault::UnknownVar(x@)), env)
        },
        Node::Assign(x, v) => {
            let (r, e1) = eval_kind(*v, env);
            match r {
                Ok(k) => (Ok(k), e1.insert(x@, k)),
                Err(f) => (Err(f), e1),
            }
        },
        Node::Unary(op, a) => {
            let (r, e1) = eval_kind(*a, env);
            match r {
                Ok(k) => (unary_kind(op, k), e1),
                Err(f) => (Err(f), e1),
            }
        },
        Node::Binary(op, a, b) => {
            let (ra, e1) = eval_kind(*a, env);
            match ra {
                Err(f) => (Err(f), e1),
                Ok(ka) => {
                    let (rb, e2) = eval_kind(*b, e1);
                    match rb {
                        Err(f) => (Err(f), e2),
                        Ok(kb) => (binary_kind(op, ka, kb), e2),
                    }
                },
            }
        },
        Node::Log(a, b) => {
            let (ra, e1) = eval_kind(*a, env);
            match ra {
                Err(f) => (Err(f), e1),
                Ok(ka) => {
                    let (rb, e2) = eval_kind(*b, e1);
                    match rb {
                        Err(f) => (Err(f), e2),
                        Ok(kb) => (log_kind(ka, kb), e2),
                    }
                },
            }
        },
    }
}

/// Adding, subtracting or multiplying the values of two trees never fails,
/// and the result takes the higher of the two operands' places in the
/// order `Integer < Rational < Float < Complex`.
pub proof fn lemma_arith_promotes(op: BinOp, a: Node, b: Node, env: Vars)
    requires
        op is Add || op is Sub || op is Mul,
        eval_kind(a, env).0 is Ok,
        eval_kind(b, eval_kind(a, env).1).0 is Ok,
    ensures
        ({
            let ka = eval_kind(a, env).0->Ok_0;
            let kb = eval_kind(b, eval_kind(a, env).1).0->Ok_0;
            let r = eval_kind(Node::Binary(op, Box::new(a), Box::new(b)), env).0;
            &&& r is Ok
            &&& r->Ok_0.rank() == if ka.rank() >= kb.rank() { ka.rank() } else { kb.rank() }
            &&& r->Ok_0 == kb.join(ka)
        }),
{
}

/// Division by a complex value fails exactly when the dividend is exact,
/// while a complex value divided by anything succeeds and stays complex.
pub proof fn lemma_division_asymmetry(a: Node, b: Node, env: Vars)
    requires
        eval_kind(a, env).0 is Ok,
        eval_kind(b, eval_kind(a, env).1).0 is Ok,
    ensures
        ({
            let ka = eval_kind(a, env).0->Ok_0;
            let kb = eval_kind(b, eval_kind(a, env).1).0->Ok_0;
            let r = eval_kind(Node::Binary(BinOp::Div, Box::new(a), Box::new(b)), env).0;
            &&& (ka.is_exact() && kb is Complex) <==> r == Err::<Kind, Fault>(Fault::InvalidOp)
            &&& ka is Complex ==> r == Ok::<Kind, Fault>(Kind::Complex)
        }),
{
}

/// The step that applies a binary operator, once both operands are on the
/// stack: an Integer exponent raises the base as it is; any other operator
/// works in the result's representation.
pub open spec fn combine_step(op: BinOp, kb: Kind, rk: Kind) -> Instr {
    if op is Pow && kb is Integer {
        Instr::PowInt
    } else {
        Instr::Combine(op, rk)
    }
}

/// The program of a tree, in post order: the operands' code left to right,
/// then the operator applied in the representation the tower picks. Code
/// stops where evaluation would fail. A logarithm takes the base-10
/// logarithm of its value and of its base, each in its own representation
/// made inexact, and divides the first by the second.
pub open spec fn code_of(n: Node, env: Vars) -> Seq<Instr>
    decreases n,
{
    match n {
        Node::Number(l) => seq![Instr::Push(l)],
        Node::Ident(x) => if env.contains_key(x@) {
            seq![Instr::Load(x)]
        } else {
            Seq::empty()
        },
        Node::Assign(x, v) => {
            let c = code_of(*v, env);
            match eval_kind(*v, env).0 {
                Ok(_) => c.push(Instr::Store(x)),
                Err(_) => c,
            }
        },
        Node::Unary(op, a) => {
            let c = code_of(*a, env);
            match eval_kind(*a, env).0 {
                Ok(k) => match unary_kind(op, k) {
                    Ok(rk) => c.push(Instr::Unary(op, rk)),
                    Err(_) => c,
                },
                Err(_) => c,
            }
        },
        Node::Binary(op, a, b) => {
            let ca = code_of(*a, env);
            let (ra, e1) = eval_kind(*a, env);
            match ra {
                Err(_) => ca,
                Ok(ka) => {
                    let cb = code_of(*b, e1);
                    match eval_kind(*b, e1).0 {
                        Err(_) => ca + cb,
                        Ok(kb) => match binary_kind(op, ka, kb) {
                            Ok(rk) => ca + cb + seq![combine_step(op, kb, rk)],
                            Err(_) => ca + cb,
                        },
                    }
                },
            }
        },
        Node::Log(a, b) => {
            let ca = code_of(*a, env);
            let (ra, e1) = eval_kind(*a, env);
            match ra {
                Err(_) => ca,
                Ok(ka) => {
                    let la = ca.push(Instr::Unary(UnOp::Log10, ka.inexact()));
                    let cb = code_of(*b, e1);
                    match eval_kind(*b, e1).0 {
                        Err(_) => la + cb,
                        Ok(kb) => {
                            let lb = cb.push(Instr::Unary(UnOp::Log10, kb.inexact()));
                            match log_kind(ka, kb) {
                                Ok(rk) => la + lb + seq![Instr::Combine(BinOp::Div, rk)],
                                Err(_) => la + lb,
                            }
                        },
                    }
                },
            }
        },
    }
}

/// An assignment evaluates to the value it assigns and records it under
/// its name, where a later lookup finds it.
pub proof fn lemma_assignment_is_expression(x: String, v: Node, env: Vars)
    requires
        eval_kind(v, env).0 is Ok,
    ensures
        ({
            let k = eval_kind(v, env).0->Ok_0;
            let (r, env2) = eval_kind(Node::Assign(x, Box::new(v)), env);
            &&& r == Ok::<Kind, Fault>(k)
            &&& env2.contains_key(x@) && env2[x@] == k
            &&& eval_kind(Node::Ident(x), env2) == (Ok::<Kind, Fault>(k), env2)
        }),
{
}

/// Looking up a variable that was never assigned fails with an error that
/// names it, and changes nothing.
pub proof fn lemma_unknown_identifier(y: String, env: Vars)
    requires
        !env.contains_key(y@),
    ensures
        eval_kind(Node::Ident(y), env) == (Err::<Kind, Fault>(Fault::UnknownVar(y@)), env),
{
}

/// One step of a program on the representations of the stack's values;
/// `None` where the step cannot run.
pub open spec fn step(i: Instr, st: Seq<Kind>, env: Vars) -> Option<(Seq<Kind>, Vars)> {
    match i {
        Instr::Push(l) => Some((st.push(l.kind), env)),
        Instr::Load(x) => if env.contains_key(x@) {
            Some((st.push(env[x@]), env))
        } else {
            None
        },
        Instr::Store(x) => if st.len() > 0 {
            Some((st, env.insert(x@, st.last())))
        } else {
            None
        },
        Instr::Unary(op, k) => if st.len() > 0 && st.last().rank() <= k.rank() {
            Some((st.drop_last().push(k), env))
        } else {
            None
        },
        Instr::Combine(op, k) => if st.len() >= 2 && st.last().rank() <= k.rank() && st[st.len()
            - 2].rank() <= k.rank() {
            Some((st.drop_last().drop_last().push(k), env))
        } else {
            None
        },
        Instr::PowInt => if st.len() >= 2 && st.last() is Integer {
            Some((st.drop_last(), env))
        } else {
            None
        },
    }
}

/// A whole program run from a stack and variables; `None` where a step
/// cannot run.
pub open spec fn run(p: Seq<Instr>, st: Seq<Kind>, env: Vars) -> Option<(Seq<Kind>, Vars)>
    decreases p.len(),
{
    if p.len() == 0 {
        Some((st, env))
    } else {
        match step(p[0], st, env) {
            Some((s2, e2)) => run(p.drop_first(), s2, e2),
            None => None,
        }
    }
}

/// From stack `st`, the program runs to the end; on success it leaves `st`
/// with the result's representation pushed, and in any case the variables
/// `env2`.
pub open spec fn runs_to(
    p: Seq<Instr>,
    st: Seq<Kind>,
    env: Vars,
    res: Result<Kind, Fault>,
    env2: Vars,
) -> bool {
    match res {
        Ok(k) => run(p, st, env) == Some((st.push(k), env2)),
        Err(_) => run(p, st, env) is Some && run(p, st, env)->Some_0.1 == env2,
    }
}

pub proof fn lemma_run_append(head: Seq<Instr>, tail: Seq<Instr>, st: Seq<Kind>, env: Vars)
    ensures
        run(head + tail, st, env) == match run(head, st, env) {
            Some((s, e)) => run(tail, s, e),
            None => None,
        },
    decreases head.len(),
{
    if head.len() == 0 {
        assert(head + tail =~= tail);
    } else {
        assert((head + tail).drop_first() =~= head.drop_first() + tail);
        assert((head + tail)[0] == head[0]);
        match step(head[0], st, env) {
            Some((s2, e2)) => lemma_run_append(head.drop_first(), tail, s2, e2),
            None => {},
        }
    }
}

proof fn lemma_run_one(i: Instr, st: Seq<Kind>, env: Vars)
    ensures
        run(seq![i], st, env) == step(i, st, env),
{
    let p = seq![i];
    assert(p.drop_first() =~= Seq::<Instr>::empty());
    match step(i, st, env) {
        Some((s2, e2)) => {
            assert(run(p.drop_first(), s2, e2) == Some((s2, e2)));
        },
        None => {},
    }
}

/// From any stack the code runs to the end, pushes one value of
/// representation `k` and leaves the variables `env2`.
#[verifier::opaque]
pub open spec fn ok_code(p: Seq<Instr>, env: Vars, k: Kind, env2: Vars) -> bool {
    forall|st: Seq<Kind>| #[trigger] run(p, st, env) == Some((st.push(k), env2))
}

/// From any stack the code runs to the end and leaves the variables `env2`.
#[verifier::opaque]
pub open spec fn err_code(p: Seq<Instr>, env: Vars, env2: Vars) -> bool {
    forall|st: Seq<Kind>| #[trigger] run(p, st, env) is Some && run(p, st, env)->Some_0.1 == env2
}

/// The code does what evaluation with outcome `res` does.
pub open spec fn code_meets(
    p: Seq<Instr>,
    env: Vars,
    res: Result<Kind, Fault>,
    env2: Vars,
) -> bool {
    match res {
        Ok(k) => ok_code(p, env, k, env2),
        Err(_) => err_code(p, env, env2),
    }
}

proof fn lemma_single(i: Instr, env: Vars, k: Kind)
    requires
        i is Push || i is Load,
        i is Push ==> k == i->Push_0.kind,
        i is Load ==> env.contains_key(i->Load_0@) && env[i->Load_0@] == k,
    ensures
        ok_code(seq![i], env, k, env),
{
    reveal(ok_code);
    assert forall|st: Seq<Kind>| #[trigger] run(seq![i], st, env) == Some((st.push(k), env)) by {
        lemma_run_one(i, st, env);
    }
}

proof fn lemma_empty_err(env: Vars)
    ensures
        err_code(Seq::empty(), env, env),
{
    reveal(err_code);
}

proof fn lemma_ok_is_err(p: Seq<Instr>, env: Vars, k: Kind, env2: Vars)
    requires
        ok_code(p, env, k, env2),
    ensures
        err_code(p, env, env2),
{
    reveal(ok_code);
    reveal(err_code);
    assert forall|st: Seq<Kind>|
        #[trigger] run(p, st, env) is Some && run(p, st, env)->Some_0.1 == env2 by {
        assert(run(p, st, env) == Some((st.push(k), env2)));
    }
}

proof fn lemma_then_one(
    p: Seq<Instr>,
    i: Instr,
    env: Vars,
    k: Kind,
    env1: Vars,
    rk: Kind,
    env2: Vars,
)
    requires
        ok_code(p, env, k, env1),
        (i matches Instr::Unary(_, u) && u == rk && k.rank() <= rk.rank() && env2 == env1)
            || (i matches Instr::Store(x) && env2 == env1.insert(x@, k) && rk == k),
    ensures
        ok_code(p + seq![i], env, rk, env2),
{
    reveal(ok_code);
    assert forall|st: Seq<Kind>|
        #[trigger] run(p + seq![i], st, env) == Some((st.push(rk), env2)) by {
        assert(run(p, st, env) == Some((st.push(k), env1)));
        lemma_run_append(p, seq![i], st, env);
        lemma_run_one(i, st.push(k), env1);
        assert(st.push(k).drop_last().push(rk) =~= st.push(rk));
    }
}

proof fn lemma_ok_then_err(
    c1: Seq<Instr>,
    c2: Seq<Instr>,
    env: Vars,
    k: Kind,
    env1: Vars,
    env2: Vars,
)
    requires
        ok_code(c1, env, k, env1),
        err_code(c2, env1, env2),
    ensures
        err_code(c1 + c2, env, env2),
{
    reveal(ok_code);
    reveal(err_code);
    assert forall|st: Seq<Kind>|
        #[trigger] run(c1 + c2, st, env) is Some && run(c1 + c2, st, env)->Some_0.1 == env2 by {
        assert(run(c1, st, env) == Some((st.push(k), env1)));
        assert(run(c2, st.push(k), env1) is Some);
        lemma_run_append(c1, c2, st, env);
    }
}

proof fn lemma_ok_then_ok(
    c1: Seq<Instr>,
    c2: Seq<Instr>,
    i: Instr,
    env: Vars,
    ka: Kind,
    env1: Vars,
    kb: Kind,
    env2: Vars,
    rk: Kind,
)
    requires
        ok_code(c1, env, ka, env1),
        ok_code(c2, env1, kb, env2),
        (i matches Instr::Combine(_, u) && u == rk && ka.rank() <= rk.rank() && kb.rank()
            <= rk.rank())
            || (i is PowInt && kb is Integer && rk == ka),
    ensures
        ok_code(c1 + c2 + seq![i], env, rk, env2),
        err_code(c1 + c2, env, env2),
{
    reveal(ok_code);
    reveal(err_code);
    assert forall|st: Seq<Kind>|
        #[trigger] run(c1 + c2 + seq![i], st, env) == Some((st.push(rk), env2)) by {
        assert(run(c1, st, env) == Some((st.push(ka), env1)));
        assert(run(c2, st.push(ka), env1) == Some((st.push(ka).push(kb), env2)));
        lemma_run_append(c1, c2, st, env);
        lemma_run_append(c1 + c2, seq![i], st, env);
        let s2 = st.push(ka).push(kb);
        lemma_run_one(i, s2, env2);
        assert(s2.drop_last() =~= st.push(ka));
        assert(s2.drop_last().drop_last().push(rk) =~= st.push(rk));
    }
    assert forall|st: Seq<Kind>|
        #[trigger] run(c1 + c2, st, env) is Some && run(c1 + c2, st, env)->Some_0.1 == env2 by {
        assert(run(c1, st, env) == Some((st.push(ka), env1)));
        assert(run(c2, st.push(ka), env1) == Some((st.push(ka).push(kb), env2)));
        lemma_run_append(c1, c2, st, env);
    }
}

fn unary_result(op: UnOp, k: Kind) -> (r: Result<Kind, NumError>)
    ensures
        outcome_of(
            match r {
                Ok(x) => Ok(x),
                Err(e) => Err(EvalError::Num(e)),
            },
        ) == unary_kind(op, k),
{
    match op {
        UnOp::Neg => Ok(k.neg()),
        UnOp::Abs => Ok(k.abs()),
        UnOp::Floor => k.floor(),
        UnOp::Ln | UnOp::Log10 => Ok(k.ln()),
    }
}

fn binary_result(op: BinOp, a: Kind, b: Kind) -> (r: Result<Kind, NumError>)
    ensures
        outcome_of(
            match r {
                Ok(x) => Ok(x),
                Err(e) => Err(EvalError::Num(e)),
            },
        ) == binary_kind(op, a, b),
{
    match op {
        BinOp::Add | BinOp::Sub | BinOp::Mul => Ok(a.promote(b)),
        BinOp::Div => a.div(b),
        BinOp::Pow => Ok(a.pow(b)),
    }
}

/// Translates a tree into a stack program, following the variables'
/// representations through assignments. The error, if any, is the one that
/// evaluating the tree would meet, and the program is what evaluation does
/// before meeting it.
fn emit(node: Node, env: &mut Env) -> (r: (Vec<Instr>, Result<Kind, EvalError>))
    ensures
        r.0@ == code_of(node, old(env)@),
        outcome_of(r.1) == eval_kind(node, old(env)@).0,
        final(env)@ == eval_kind(node, old(env)@).1,
        code_meets(r.0@, old(env)@, eval_kind(node, old(env)@).0, final(env)@),
    decreases node, 1int,
{
    let ghost env0 = env@;
    match node {
        Node::Number(l) => {
            let k = l.kind;
            let code = vec![Instr::Push(l)];
            proof {
                assert(code@ =~= seq![code@[0]]);
                lemma_single(code@[0], env0, k);
            }
            (code, Ok(k))
        },
        Node::Ident(x) => match env.get(&x) {
            Some(k) => {
                let code = vec![Instr::Load(x)];
                proof {
                    assert(code@ =~= seq![code@[0]]);
                    lemma_single(code@[0], env0, k);
                }
                (code, Ok(k))
            },
            None => {
                proof {
                    lemma_empty_err(env0);
                }
                (Vec::new(), Err(EvalError::UnknownVar(x)))
            },
        },
        Node::Assign(x, v) => emit_assign(x, v, env),
        Node::Unary(op, a) => emit_unary(op, a, env),
        Node::Binary(op, a, b) => emit_binary(op, a, b, env),
        Node::Log(a, b) => emit_log(a, b, env),
    }
}

/// An assignment: the value, then a store.
fn emit_assign(x: String, v: Box<Node>, env: &mut Env) -> (r: (Vec<Instr>, Result<Kind, EvalError>))
    ensures
        r.0@ == code_of(Node::Assign(x, v), old(env)@),
        outcome_of(r.1) == eval_kind(Node::Assign(x, v), old(env)@).0,
        final(env)@ == eval_kind(Node::Assign(x, v), old(env)@).1,
        code_meets(r.0@, old(env)@, eval_kind(Node::Assign(x, v), old(env)@).0, final(env)@),
    decreases Node::Assign(x, v), 0int,
{
    let ghost env0 = env@;
    let (mut code, r) = emit(*v, env);
    let ghost c1 = code@;
    let ghost env1 = env@;
    match r {
        Ok(k) => {
            env.set(x.clone(), k);
            let store = Instr::Store(x);
            let ghost si = store;
            code.push(store);
            proof {
                assert(code@ =~= c1 + seq![si]);
                lemma_then_one(c1, si, env0, k, env1, k, env@);
            }
            (code, Ok(k))
        },
        Err(e) => (code, Err(e)),
    }
}

/// A unary operation: the operand, then the operator.
fn emit_unary(op: UnOp, a: Box<Node>, env: &mut Env) -> (r: (Vec<Instr>, Result<Kind, EvalError>))
    ensures
        r.0@ == code_of(Node::Unary(op, a), old(env)@),
        outcome_of(r.1) == eval_kind(Node::Unary(op, a), old(env)@).0,
        final(env)@ == eval_kind(Node::Unary(op, a), old(env)@).1,
        code_meets(r.0@, old(env)@, eval_kind(Node::Unary(op, a), old(env)@).0, final(env)@),
    decreases Node::Unary(op, a), 0int,
{
    let ghost env0 = env@;
    let (mut code, r) = emit(*a, env);
    let ghost c1 = code@;
    match r {
        Err(e) => (code, Err(e)),
        Ok(k) => match unary_result(op, k) {
            Err(e) => {
                proof {
                    lemma_ok_is_err(c1, env0, k, env@);
                }
                (code, Err(EvalError::Num(e)))
            },
            Ok(rk) => {
                code.push(Instr::Unary(op, rk));
                proof {
                    assert(code@ =~= c1 + seq![Instr::Unary(op, rk)]);
                    lemma_then_one(c1, Instr::Unary(op, rk), env0, k, env@, rk, env@);
                }
                (code, Ok(rk))
            },
        },
    }
}

/// A binary operation: both operands left to right, then the operator.
fn emit_binary(
    op: BinOp,
    a: Box<Node>,
    b: Box<Node>,
    env: &mut Env,
) -> (r: (Vec<Instr>, Result<Kind, EvalError>))
    ensures
        r.0@ == code_of(Node::Binary(op, a, b), old(env)@),
        outcome_of(r.1) == eval_kind(Node::Binary(op, a, b), old(env)@).0,
        final(env)@ == eval_kind(Node::Binary(op, a, b), old(env)@).1,
        code_meets(r.0@, old(env)@, eval_kind(Node::Binary(op, a, b), old(env)@).0, final(env)@),
    decreases Node::Binary(op, a, b), 0int,
{
    let ghost env0 = env@;
    let (mut code, ra) = emit(*a, env);
    let ghost c1 = code@;
    let ghost env1 = env@;
    match ra {
        Err(e) => (code, Err(e)),
        Ok(ka) => {
            let (mut code2, rb) = emit(*b, env);
            let ghost c2 = code2@;
            code.append(&mut code2);
            proof {
                assert(code@ =~= c1 + c2);
            }
            match rb {
                Err(e) => {
                    proof {
                        lemma_ok_then_err(c1, c2, env0, ka, env1, env@);
                    }
                    (code, Err(e))
                },
                Ok(kb) => match binary_result(op, ka, kb) {
                    Err(e) => {
                        proof {
                            let i = Instr::Combine(op, ka.join(kb));
                            lemma_ok_then_ok(c1, c2, i, env0, ka, env1, kb, env@, ka.join(kb));
                        }
                        (code, Err(EvalError::Num(e)))
                    },
                    Ok(rk) => {
                        let last = if op == BinOp::Pow && kb == Kind::Integer {
                            Instr::PowInt
                        } else {
                            Instr::Combine(op, rk)
                        };
                        let ghost li = last;
                        code.push(last);
                        proof {
                            assert(code@ =~= c1 + c2 + seq![li]);
                            lemma_ok_then_ok(c1, c2, li, env0, ka, env1, kb, env@, rk);
                        }
                        (code, Ok(rk))
                    },
                },
            }
        },
    }
}

/// A logarithm: each operand followed by its base-10 logarithm, then the
/// division of the first by the second.
fn emit_log(a: Box<Node>, b: Box<Node>, env: &mut Env) -> (r: (Vec<Instr>, Result<Kind, EvalError>))
    ensures
        r.0@ == code_of(Node::Log(a, b), old(env)@),
        outcome_of(r.1) == eval_kind(Node::Log(a, b), old(env)@).0,
        final(env)@ == eval_kind(Node::Log(a, b), old(env)@).1,
        code_meets(r.0@, old(env)@, eval_kind(Node::Log(a, b), old(env)@).0, final(env)@),
    decreases Node::Log(a, b), 0int,
{
    let ghost env0 = env@;
    let (mut code, ra) = emit(*a, env);
    let ghost c1 = code@;
    let ghost env1 = env@;
    match ra {
        Err(e) => (code, Err(e)),
        Ok(ka) => {
            let la = ka.ln();
            code.push(Instr::Unary(UnOp::Log10, la));
            let ghost c1l = code@;
            proof {
                assert(c1l =~= c1 + seq![Instr::Unary(UnOp::Log10, la)]);
                lemma_then_one(c1, Instr::Unary(UnOp::Log10, la), env0, ka, env1, la, env1);
            }
            let (mut code2, rb) = emit(*b, env);
            let ghost c2 = code2@;
            match rb {
                Err(e) => {
                    code.append(&mut code2);
                    proof {
                        assert(code@ =~= c1l + c2);
                        lemma_ok_then_err(c1l, c2, env0, la, env1, env@);
                    }
                    (code, Err(e))
                },
                Ok(kb) => {
                    let lb = kb.ln();
                    code2.push(Instr::Unary(UnOp::Log10, lb));
                    let ghost c2l = code2@;
                    proof {
                        assert(c2l =~= c2 + seq![Instr::Unary(UnOp::Log10, lb)]);
                        lemma_then_one(c2, Instr::Unary(UnOp::Log10, lb), env1, kb, env@, lb, env@);
                    }
                    match ka.log(kb) {
                        Err(e) => {
                            code.append(&mut code2);
                            proof {
                                assert(code@ =~= c1l + c2l);
                                let i = Instr::Combine(BinOp::Div, la.join(lb));
                                let k = la.join(lb);
                                lemma_ok_then_ok(c1l, c2l, i, env0, la, env1, lb, env@, k);
                            }
                            (code, Err(EvalError::Num(e)))
                        },
                        Ok(rk) => {
                            code.append(&mut code2);
                            code.push(Instr::Combine(BinOp::Div, rk));
                            proof {
                                assert(code@ =~= c1l + c2l + seq![Instr::Combine(BinOp::Div, rk)]);
                                let i = Instr::Combine(BinOp::Div, rk);
                                lemma_ok_then_ok(c1l, c2l, i, env0, la, env1, lb, env@, rk);
                            }
                            (code, Ok(rk))
                        },
                    }
                },
            }
        },
    }
}

/// Evaluates a tree against the variables: the program that a numeric
/// backend runs, and the result's representation or the error. Run on an
/// empty stack, the program never gets stuck; on success it leaves exactly
/// the result, and in any case it leaves the variables as `env` holds them
/// afterwards.
pub fn compile(node: Node, env: &mut Env) -> (r: (Vec<Instr>, Result<Kind, EvalError>))
    ensures
        r.0@ == code_of(node, old(env)@),
        outcome_of(r.1) == eval_kind(node, old(env)@).0,
        final(env)@ == eval_kind(node, old(env)@).1,
        runs_to(r.0@, Seq::empty(), old(env)@, outcome_of(r.1), final(env)@),
{
    let r = emit(node, env);
    proof {
        reveal(ok_code);
        reveal(err_code);
        assert(runs_to(r.0@, Seq::empty(), old(env)@, outcome_of(r.1), env@));
    }
    r
}

} // verus!
