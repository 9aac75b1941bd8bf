//! A machine that runs the instructions of the register machine, and the
//! proof that the instructions of a program print what the program means.
//! The machine knows results and locations by the identifiers that stand in
//! the text, and stops where an identifier is defined a second time.
use vstd::prelude::*;
use crate::ast::{
    lemma_program_size_holds, lemma_well_scoped_prefix, program_size, well_scoped, Expr, Stmt,
};
use crate::llvm::code::{
    counters_after, counters_at, expr_code, lemma_expr_counters, lemma_loc_text_injective,
    lemma_operand_text_injective, lemma_stmt_counters, loc_text, numbered, operand_text,
    program_code, stmt_code, within, Counters, Instr, Operand,
};
use crate::semantics::{apply, eval, lemma_run_env, run_stmt, Env, Run};

verus! {

/// The state of the machine.
pub struct Machine {
    /// The values of the results defined so far, by their identifiers.
    pub regs: Map<Seq<char>, i32>,
    /// The identifiers of the locations that were allocated.
    pub cells: Set<Seq<char>>,
    /// What the locations that were stored to hold, by their identifiers.
    pub memory: Map<Seq<char>, i32>,
    /// The integers printed so far.
    pub output: Seq<i32>,
    /// Whether the machine has stopped at an instruction that it cannot run.
    pub halted: bool,
}

/// The machine before the first instruction.
pub open spec fn start() -> Machine {
    Machine {
        regs: Map::empty(),
        cells: Set::empty(),
        memory: Map::empty(),
        output: Seq::empty(),
        halted: false,
    }
}

/// The machine stopped where it is.
pub open spec fn halt(m: Machine) -> Machine {
    Machine { halted: true, ..m }
}

/// The value of an operand: a literal is its own, a result has the value
/// that its identifier was defined with, and an identifier that was not
/// defined has none.
pub open spec fn value(v: Operand, m: Machine) -> Option<i32> {
    match v {
        Operand::Constant(n) => Some(n),
        _ => if m.regs.contains_key(operand_text(v)) {
            Some(m.regs[operand_text(v)])
        } else {
            None
        },
    }
}

/// The machine with one more result defined; stopped where the identifier of
/// the result is defined already.
pub open spec fn define(result: Operand, x: i32, m: Machine) -> Machine {
    if m.regs.contains_key(operand_text(result)) {
        halt(m)
    } else {
        Machine { regs: m.regs.insert(operand_text(result), x), ..m }
    }
}

/// The machine after one instruction. A machine that has stopped stays as it
/// is. The machine stops where an operand has no value, where an identifier
/// is defined a second time, where a location is stored to that was not
/// allocated or loaded that was not stored to, and at a division by zero.
pub open spec fn step(i: Instr, m: Machine) -> Machine {
    if m.halted {
        m
    } else {
        match i {
            Instr::Alloca(name) => if m.cells.contains(loc_text(name)) {
                halt(m)
            } else {
                Machine { cells: m.cells.insert(loc_text(name)), ..m }
            },
            Instr::Store(v, name) => match value(v, m) {
                Some(x) => if m.cells.contains(loc_text(name)) {
                    Machine { memory: m.memory.insert(loc_text(name), x), ..m }
                } else {
                    halt(m)
                },
                None => halt(m),
            },
            Instr::Print(v) => match value(v, m) {
                Some(x) => Machine { output: m.output.push(x), ..m },
                None => halt(m),
            },
            Instr::Load(result, name) => if m.memory.contains_key(loc_text(name)) {
                define(result, m.memory[loc_text(name)], m)
            } else {
                halt(m)
            },
            Instr::Arithmetic(result, op, l, r) => match (value(l, m), value(r, m)) {
                (Some(a), Some(b)) => match apply(op, a, b) {
                    Some(x) => define(result, x, m),
                    None => halt(m),
                },
                _ => halt(m),
            },
        }
    }
}

/// The machine after a sequence of instructions.
pub open spec fn exec(code: Seq<Instr>, m: Machine) -> Machine
    decreases code.len(),
{
    if code.len() == 0 {
        m
    } else {
        step(code.last(), exec(code.drop_last(), m))
    }
}

/// Running `a + b` is running `a` and then `b`.
pub proof fn lemma_exec_concat(a: Seq<Instr>, b: Seq<Instr>, m: Machine)
    ensures
        exec(a + b, m) == exec(b, exec(a, m)),
    decreases b.len(),
{
    if b.len() == 0 {
        assert(a + b =~= a);
    } else {
        lemma_exec_concat(a, b.drop_last(), m);
        assert((a + b).drop_last() =~= a + b.drop_last());
        assert((a + b).last() == b.last());
    }
}

/// Running one instruction is one step.
pub proof fn lemma_exec_one(i: Instr, m: Machine)
    ensures
        exec(seq![i], m) == step(i, m),
{
    assert(seq![i].drop_last() =~= Seq::<Instr>::empty());
    reveal_with_fuel(exec, 2);
}

/// A machine that has stopped stays as it is.
pub proof fn lemma_exec_halted(code: Seq<Instr>, m: Machine)
    requires
        m.halted,
    ensures
        exec(code, m) == m,
    decreases code.len(),
{
    if code.len() > 0 {
        lemma_exec_halted(code.drop_last(), m);
    }
}

/// Every result whose identifier has a value was numbered by the counters.
pub open spec fn known(regs: Map<Seq<char>, i32>, c: Counters) -> bool {
    forall|v: Operand| #![trigger regs.contains_key(operand_text(v))]
        !(v is Constant) && regs.contains_key(operand_text(v)) ==> numbered(v, c)
}

/// Every identifier that had a value has kept it.
pub open spec fn extends(old_regs: Map<Seq<char>, i32>, new_regs: Map<Seq<char>, i32>) -> bool {
    forall|t: Seq<char>| #![trigger old_regs.contains_key(t)]
        old_regs.contains_key(t) ==> new_regs.contains_key(t) && new_regs[t] == old_regs[t]
}

/// Memory holds the values of the variables, each at its location.
pub open spec fn holds(memory: Map<Seq<char>, i32>, env: Env) -> bool {
    forall|name: Seq<char>| #![trigger env.contains_key(name)]
        memory.contains_key(loc_text(name)) == env.contains_key(name) && (env.contains_key(name)
            ==> memory[loc_text(name)] == env[name])
}

/// The allocated locations are those of the variables that the counters
/// hold as allocated.
pub open spec fn allocates(cells: Set<Seq<char>>, c: Counters) -> bool {
    forall|name: Seq<char>| #![trigger c.allocated.contains(name)]
        cells.contains(loc_text(name)) == c.allocated.contains(name)
}

/// A result that the counters have not numbered gets its value, and every
/// other identifier keeps its own.
pub proof fn lemma_define(result: Operand, x: i32, m: Machine, c: Counters, after: Counters)
    requires
        !m.halted,
        !(result is Constant),
        known(m.regs, c),
        !numbered(result, c),
        numbered(result, after),
        forall|v: Operand| numbered(v, c) ==> numbered(v, after),
    ensures
        define(result, x, m) == (Machine { regs: define(result, x, m).regs, ..m }),
        value(result, define(result, x, m)) == Some(x),
        known(define(result, x, m).regs, after),
        extends(m.regs, define(result, x, m).regs),
{
    let t = operand_text(result);
    assert(!m.regs.contains_key(t));
    let regs = m.regs.insert(t, x);
    assert forall|v: Operand| #![trigger regs.contains_key(operand_text(v))]
        !(v is Constant) && regs.contains_key(operand_text(v)) implies numbered(v, after) by {
        if operand_text(v) == t {
            lemma_operand_text_injective(v, result);
        } else {
            assert(m.regs.contains_key(operand_text(v)));
        }
    }
}

/// The instructions of an expression define its result with its value and
/// change no identifier that had a value, nothing in memory and nothing that
/// was printed; where the expression has no value, the machine stops without
/// printing.
pub proof fn lemma_expr_exec(e: Expr, c: Counters, env: Env, m: Machine, issued: nat)
    requires
        !m.halted,
        holds(m.memory, env),
        e.reads_only(env.dom()),
        known(m.regs, c),
        within(c, issued),
        issued + e.size() <= usize::MAX,
    ensures
        ({
            let out = expr_code(e, c);
            let after = exec(out.code, m);
            match eval(e, env) {
                Some(v) => {
                    &&& after == (Machine { regs: after.regs, ..m })
                    &&& value(out.result, after) == Some(v)
                    &&& known(after.regs, out.counters)
                    &&& extends(m.regs, after.regs)
                },
                None => after.halted && after.output == m.output,
            }
        }),
        forall|v: Operand| numbered(v, c) ==> numbered(v, expr_code(e, c).counters),
    decreases e,
{
    let out = expr_code(e, c);
    match e {
        Expr::Number(n) => {},
        Expr::Ident(name) => {
            lemma_exec_one(Instr::Load(out.result, name@), m);
            assert(env.contains_key(name@));
            lemma_define(out.result, env[name@], m, c, out.counters);
        },
        Expr::Op(l, op, r) => {
            let left = expr_code(*l, c);
            let right = expr_code(*r, left.counters);
            let last = seq![Instr::Arithmetic(out.result, op, left.result, right.result)];
            lemma_expr_counters(*l, c, issued);
            lemma_expr_counters(*r, left.counters, issued + left.code.len());
            lemma_exec_concat(left.code + right.code, last, m);
            lemma_exec_concat(left.code, right.code, m);
            lemma_expr_exec(*l, c, env, m, issued);
            let m1 = exec(left.code, m);
            match eval(*l, env) {
                None => {
                    lemma_exec_halted(right.code, m1);
                    lemma_exec_halted(last, m1);
                    lemma_expr_numbers(*r, left.counters, issued + left.code.len());
                },
                Some(a) => {
                    lemma_expr_exec(*r, left.counters, env, m1, issued + left.code.len());
                    let m2 = exec(right.code, m1);
                    match eval(*r, env) {
                        None => {
                            lemma_exec_halted(last, m2);
                        },
                        Some(b) => {
                            lemma_exec_one(last[0], m2);
                            assert(value(left.result, m2) == Some(a));
                            match apply(op, a, b) {
                                Some(x) => {
                                    lemma_define(out.result, x, m2, right.counters, out.counters);
                                },
                                None => {},
                            }
                        },
                    }
                },
            }
        },
    }
}

/// What the counters have numbered before an expression they have numbered
/// after it.
pub proof fn lemma_expr_numbers(e: Expr, c: Counters, issued: nat)
    requires
        within(c, issued),
        issued + e.size() <= usize::MAX,
    ensures
        forall|v: Operand| numbered(v, c) ==> numbered(v, expr_code(e, c).counters),
    decreases e,
{
    match e {
        Expr::Number(_) => {},
        Expr::Ident(_) => {},
        Expr::Op(l, _, r) => {
            let left = expr_code(*l, c);
            lemma_expr_counters(*l, c, issued);
            lemma_expr_counters(*r, left.counters, issued + left.code.len());
            lemma_expr_numbers(*l, c, issued);
            lemma_expr_numbers(*r, left.counters, issued + left.code.len());
        },
    }
}

/// The instructions of a statement do to the machine what the statement
/// means: they print what it prints, stop where it stops, and leave in
/// memory the values of the variables.
pub proof fn lemma_stmt_exec(s: Stmt, c: Counters, r: Run, m: Machine, issued: nat)
    requires
        !m.halted,
        !r.halted,
        m.output == r.output,
        holds(m.memory, r.env),
        allocates(m.cells, c),
        known(m.regs, c),
        within(c, issued),
        issued + s.size() <= usize::MAX,
        s.expr().reads_only(r.env.dom()),
    ensures
        ({
            let code = stmt_code(s, c);
            let after = exec(code, m);
            let meant = run_stmt(s, r);
            let counters = counters_after(s, c);
            &&& after.output == meant.output
            &&& after.halted == meant.halted
            &&& !meant.halted ==> holds(after.memory, meant.env) && allocates(
                after.cells,
                counters,
            ) && known(after.regs, counters)
        }),
{
    let e = s.expr();
    let env = r.env;
    match s {
        Stmt::SAss(name, _) => {
            let head = if c.allocated.contains(name@) {
                Seq::<Instr>::empty()
            } else {
                seq![Instr::Alloca(name@)]
            };
            let body = expr_code(e, c);
            let last = seq![Instr::Store(body.result, name@)];
            lemma_exec_concat(head + body.code, last, m);
            lemma_exec_concat(head, body.code, m);
            let m0 = exec(head, m);
            if !c.allocated.contains(name@) {
                lemma_exec_one(Instr::Alloca(name@), m);
            }
            assert(m0.cells == m.cells.insert(loc_text(name@)));
            assert(!m0.halted);
            lemma_expr_counters(e, c, issued + head.len());
            lemma_expr_exec(e, c, env, m0, issued + head.len());
            let m1 = exec(body.code, m0);
            match eval(e, env) {
                None => {
                    lemma_exec_halted(last, m1);
                },
                Some(v) => {
                    lemma_exec_one(last[0], m1);
                    let after = exec(stmt_code(s, c), m);
                    let counters = counters_after(s, c);
                    let env2 = env.insert(name@, v);
                    assert(after.memory == m.memory.insert(loc_text(name@), v));
                    assert forall|other: Seq<char>| #![trigger env2.contains_key(other)]
                        after.memory.contains_key(loc_text(other)) == env2.contains_key(other)
                        && (env2.contains_key(other) ==> after.memory[loc_text(other)]
                        == env2[other]) by {
                        if other != name@ {
                            if loc_text(other) == loc_text(name@) {
                                lemma_loc_text_injective(other, name@);
                            }
                            assert(env.contains_key(other) == env2.contains_key(other));
                        }
                    }
                    assert forall|other: Seq<char>|
                        #![trigger counters.allocated.contains(other)]
                        after.cells.contains(loc_text(other)) == counters.allocated.contains(
                            other,
                        ) by {
                        if other != name@ {
                            if loc_text(other) == loc_text(name@) {
                                lemma_loc_text_injective(other, name@);
                            }
                            assert(c.allocated.contains(other) == counters.allocated.contains(
                                other,
                            ));
                        }
                    }
                },
            }
        },
        Stmt::SExpr(_) => {
            let body = expr_code(e, c);
            let last = seq![Instr::Print(body.result)];
            lemma_exec_concat(body.code, last, m);
            lemma_expr_counters(e, c, issued);
            lemma_expr_exec(e, c, env, m, issued);
            let m1 = exec(body.code, m);
            match eval(e, env) {
                None => {
                    lemma_exec_halted(last, m1);
                },
                Some(v) => {
                    lemma_exec_one(last[0], m1);
                },
            }
        },
    }
}

/// The instructions of a program, run from the start, print what the
/// program means and stop where it stops: no identifier is defined a second
/// time, and while the instructions run on, memory holds the values of the
/// variables.
pub proof fn lemma_program_exec(stmts: Seq<Box<Stmt>>, n: nat)
    requires
        n <= stmts.len(),
        well_scoped(stmts, n),
        program_size(stmts, n) <= usize::MAX,
    ensures
        ({
            let code = program_code(stmts, n);
            let after = exec(code, start());
            let meant = crate::semantics::run(stmts, n);
            let counters = counters_at(stmts, n);
            &&& code.len() <= program_size(stmts, n)
            &&& within(counters, code.len())
            &&& after.output == meant.output
            &&& after.halted == meant.halted
            &&& !meant.halted ==> holds(after.memory, meant.env) && allocates(
                after.cells,
                counters,
            ) && known(after.regs, counters)
        }),
    decreases n,
{
    if n > 0 {
        let before = (n - 1) as nat;
        let s = *stmts[n - 1];
        let c = counters_at(stmts, before);
        let code = program_code(stmts, before);
        lemma_well_scoped_prefix(stmts, before, n);
        lemma_program_size_holds(stmts, before, n);
        lemma_program_exec(stmts, before);
        lemma_run_env(stmts, before);
        lemma_exec_concat(code, stmt_code(s, c), start());
        let m = exec(code, start());
        let r = crate::semantics::run(stmts, before);
        lemma_stmt_counters(s, c, code.len());
        if r.halted {
            lemma_exec_halted(stmt_code(s, c), m);
        } else {
            lemma_stmt_exec(s, c, r, m, code.len());
        }
    }
}

} // verus!
