//! What a program means: the values of its expressions and the integers that
//! it prints. Both machines are held to this.
use vstd::prelude::*;
use crate::ast::{assigned, Expr, Opcode, Stmt};

verus! {

/// The values of the variables.
pub type Env = Map<Seq<char>, i32>;

/// The 32-bit integer that an integer wraps around to.
pub open spec fn wrap(v: int) -> i32 {
    ((v + 0x8000_0000) % 0x1_0000_0000 - 0x8000_0000) as i32
}

/// The quotient of `a` by `b`, rounded towards zero.
pub open spec fn quotient(a: int, b: int) -> int
    recommends
        b != 0,
{
    if a >= 0 && b > 0 {
        a / b
    } else if a >= 0 {
        -(a / (-b))
    } else if b > 0 {
        -((-a) / b)
    } else {
        (-a) / (-b)
    }
}

/// The result of an operator on two values: sums, differences, products and
/// quotients wrap around, and a division by zero has no result.
pub open spec fn apply(op: Opcode, a: i32, b: i32) -> Option<i32> {
    match op {
        Opcode::Add => Some(wrap(a + b)),
        Opcode::Sub => Some(wrap(a - b)),
        Opcode::Mul => Some(wrap(a * b)),
        Opcode::Div => if b == 0 {
            None
        } else {
            Some(wrap(quotient(a as int, b as int)))
        },
    }
}

/// Addition and multiplication give the same result on exchanged operands.
pub proof fn lemma_apply_commutes(op: Opcode, a: i32, b: i32)
    requires
        op.commutes(),
    ensures
        apply(op, a, b) == apply(op, b, a),
{
    assert(a * b == b * a) by (nonlinear_arith);
}

/// The value of an expression; none where a division by zero occurs in it or
/// a variable has no value.
pub open spec fn eval(e: Expr, env: Env) -> Option<i32>
    decreases e,
{
    match e {
        Expr::Number(n) => Some(n),
        Expr::Ident(name) => if env.contains_key(name@) {
            Some(env[name@])
        } else {
            None
        },
        Expr::Op(l, op, r) => match (eval(*l, env), eval(*r, env)) {
            (Some(a), Some(b)) => apply(op, a, b),
            _ => None,
        },
    }
}

/// A run of a program so far: the values of the variables, the integers
/// printed, and whether the run has stopped at an expression without value.
pub struct Run {
    pub env: Env,
    pub output: Seq<i32>,
    pub halted: bool,
}

/// The run after one more statement. A run that has stopped stays as it is.
pub open spec fn run_stmt(s: Stmt, r: Run) -> Run {
    if r.halted {
        r
    } else {
        match eval(s.expr(), r.env) {
            None => Run { halted: true, ..r },
            Some(v) => match s {
                Stmt::SAss(name, _) => Run { env: r.env.insert(name@, v), ..r },
                Stmt::SExpr(_) => Run { output: r.output.push(v), ..r },
            },
        }
    }
}

/// The run of the first `n` statements of a program.
pub open spec fn run(stmts: Seq<Box<Stmt>>, n: nat) -> Run
    recommends
        n <= stmts.len(),
    decreases n,
{
    if n == 0 {
        Run { env: Map::empty(), output: Seq::empty(), halted: false }
    } else {
        run_stmt(*stmts[n - 1], run(stmts, (n - 1) as nat))
    }
}

/// While a run goes on, the variables with a value are those that the
/// statements so far assign.
pub proof fn lemma_run_env(stmts: Seq<Box<Stmt>>, n: nat)
    requires
        n <= stmts.len(),
    ensures
        !run(stmts, n).halted ==> run(stmts, n).env.dom() == assigned(stmts, n),
    decreases n,
{
    if n > 0 {
        lemma_run_env(stmts, (n - 1) as nat);
        let before = run(stmts, (n - 1) as nat);
        if !run(stmts, n).halted {
            assert(run(stmts, n).env.dom() =~= assigned(stmts, n));
        }
    } else {
        assert(run(stmts, n).env.dom() =~= assigned(stmts, n));
    }
}

} // verus!
