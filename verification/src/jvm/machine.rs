//! A machine that runs the instructions of the stack machine, and the proof
//! that the instructions of a program print what the program means.
use vstd::prelude::*;
use crate::ast::{
    lemma_program_size_holds, lemma_well_scoped_prefix, program_size, well_scoped, Expr, Stmt,
};
use crate::jvm::code::{
    assign, expr_code, lemma_assign, lemma_slots_at, program_code, right_first, slots_after,
    slots_at, slots_wf, stmt_code, Instr, Slots,
};
use crate::semantics::{apply, eval, lemma_apply_commutes, run_stmt, Env, Run};

verus! {

/// What a place on the stack holds.
pub enum Cell {
    /// An integer.
    Int(i32),
    /// The reference to the output stream.
    Printer,
}

/// The state of the machine.
pub struct Machine {
    /// The operand stack, its top last.
    pub stack: Seq<Cell>,
    /// The values of the local-variable slots that were stored to.
    pub locals: Map<usize, i32>,
    /// The integers printed so far.
    pub output: Seq<i32>,
    /// Whether the machine has stopped at an instruction that it cannot run.
    pub halted: bool,
}

/// The machine before the first instruction.
pub open spec fn start() -> Machine {
    Machine { stack: Seq::empty(), locals: Map::empty(), output: Seq::empty(), halted: false }
}

/// The machine stopped where it is.
pub open spec fn halt(m: Machine) -> Machine {
    Machine { halted: true, ..m }
}

/// The machine after one instruction. A machine that has stopped stays as it
/// is. The machine stops where the stack does not hold what the instruction
/// takes, where a slot is loaded that was never stored to, and at a division
/// by zero.
pub open spec fn step(i: Instr, m: Machine) -> Machine {
    let n = m.stack.len() as int;
    if m.halted {
        m
    } else {
        match i {
            Instr::Const(v) => Machine { stack: m.stack.push(Cell::Int(v)), ..m },
            Instr::Load(slot) => if m.locals.contains_key(slot) {
                Machine { stack: m.stack.push(Cell::Int(m.locals[slot])), ..m }
            } else {
                halt(m)
            },
            Instr::Store(slot) => if n >= 1 {
                match m.stack[n - 1] {
                    Cell::Int(v) => Machine {
                        stack: m.stack.take(n - 1),
                        locals: m.locals.insert(slot, v),
                        ..m
                    },
                    Cell::Printer => halt(m),
                }
            } else {
                halt(m)
            },
            Instr::GetPrinter => Machine { stack: m.stack.push(Cell::Printer), ..m },
            Instr::CallPrint => if n >= 2 {
                match (m.stack[n - 2], m.stack[n - 1]) {
                    (Cell::Printer, Cell::Int(v)) => Machine {
                        stack: m.stack.take(n - 2),
                        output: m.output.push(v),
                        ..m
                    },
                    _ => halt(m),
                }
            } else {
                halt(m)
            },
            Instr::Swap => if n >= 2 {
                Machine {
                    stack: m.stack.take(n - 2).push(m.stack[n - 1]).push(m.stack[n - 2]),
                    ..m
                }
            } else {
                halt(m)
            },
            Instr::Arith(op) => if n >= 2 {
                match (m.stack[n - 2], m.stack[n - 1]) {
                    (Cell::Int(a), Cell::Int(b)) => match apply(op, a, b) {
                        Some(v) => Machine { stack: m.stack.take(n - 2).push(Cell::Int(v)), ..m },
                        None => halt(m),
                    },
                    _ => halt(m),
                }
            } else {
                halt(m)
            },
        }
    }
}

/// The machine after a sequence of instructions.
pub open spec fn exec(code: Seq<Instr>, m: Machine) -> Machine
    decreases code.len(),
{
    if code.len() == 0 {
        m
    } else {
        step(code.last(), exec(code.drop_last(), m))
    }
}

/// Running `a + b` is running `a` and then `b`.
pub proof fn lemma_exec_concat(a: Seq<Instr>, b: Seq<Instr>, m: Machine)
    ensures
        exec(a + b, m) == exec(b, exec(a, m)),
    decreases b.len(),
{
    if b.len() == 0 {
        assert(a + b =~= a);
    } else {
        lemma_exec_concat(a, b.drop_last(), m);
        assert((a + b).drop_last() =~= a + b.drop_last());
        assert((a + b).last() == b.last());
    }
}

/// Running one instruction is one step.
pub proof fn lemma_exec_one(i: Instr, m: Machine)
    ensures
        exec(seq![i], m) == step(i, m),
{
    assert(seq![i].drop_last() =~= Seq::<Instr>::empty());
    reveal_with_fuel(exec, 2);
}

/// A machine that has stopped stays as it is.
pub proof fn lemma_exec_halted(code: Seq<Instr>, m: Machine)
    requires
        m.halted,
    ensures
        exec(code, m) == m,
    decreases code.len(),
{
    if code.len() > 0 {
        lemma_exec_halted(code.drop_last(), m);
    }
}

/// The slots hold the values of the variables: each variable with a value
/// has a slot, and the slot holds that value.
pub open spec fn agrees(slots: Slots, locals: Map<usize, i32>, env: Env) -> bool {
    &&& env.dom() == slots.dom()
    &&& forall|name: Seq<char>| #![trigger slots.contains_key(name)]
        slots.contains_key(name) ==> locals.contains_key(slots[name]) && locals[slots[name]]
            == env[name]
}

/// The instructions of an expression push its value and change nothing
/// else; where it has no value, the machine stops without printing.
pub proof fn lemma_expr_exec(e: Expr, slots: Slots, env: Env, m: Machine)
    requires
        !m.halted,
        e.reads_only(slots.dom()),
        agrees(slots, m.locals, env),
    ensures
        match eval(e, env) {
            Some(v) => exec(expr_code(e, slots), m) == (Machine {
                stack: m.stack.push(Cell::Int(v)),
                ..m
            }),
            None => exec(expr_code(e, slots), m).halted && exec(expr_code(e, slots), m).output
                == m.output,
        },
    decreases e,
{
    match e {
        Expr::Number(n) => {
            lemma_exec_one(Instr::Const(n), m);
        },
        Expr::Ident(name) => {
            lemma_exec_one(Instr::Load(slots[name@]), m);
            assert(slots.contains_key(name@));
            assert(env.dom().contains(name@));
        },
        Expr::Op(l, op, r) => {
            let reversed = right_first(*l, *r);
            let first = if reversed {
                *r
            } else {
                *l
            };
            let second = if reversed {
                *l
            } else {
                *r
            };
            let a = expr_code(first, slots);
            let b = expr_code(second, slots);
            let tail = if reversed && !op.commutes() {
                seq![Instr::Swap, Instr::Arith(op)]
            } else {
                seq![Instr::Arith(op)]
            };
            assert(expr_code(e, slots) =~= a + b + tail);
            lemma_exec_concat(a + b, tail, m);
            lemma_exec_concat(a, b, m);
            lemma_expr_exec(first, slots, env, m);
            let m1 = exec(a, m);
            match eval(first, env) {
                None => {
                    lemma_exec_halted(b, m1);
                    lemma_exec_halted(tail, m1);
                },
                Some(x) => {
                    lemma_expr_exec(second, slots, env, m1);
                    let m2 = exec(b, m1);
                    match eval(second, env) {
                        None => {
                            lemma_exec_halted(tail, m2);
                        },
                        Some(y) => {
                            let n = m2.stack.len() as int;
                            assert(m2.stack.take(n - 2) =~= m.stack);
                            if reversed && !op.commutes() {
                                let swap = seq![Instr::Swap];
                                let arith = seq![Instr::Arith(op)];
                                assert(tail =~= swap + arith);
                                lemma_exec_concat(swap, arith, m2);
                                lemma_exec_one(Instr::Swap, m2);
                                let m3 = step(Instr::Swap, m2);
                                lemma_exec_one(Instr::Arith(op), m3);
                                assert(m3.stack.take(n - 2) =~= m.stack);
                            } else {
                                lemma_exec_one(Instr::Arith(op), m2);
                                if reversed {
                                    lemma_apply_commutes(op, x, y);
                                }
                            }
                        },
                    }
                },
            }
        },
    }
}

/// The instructions of an assignment store the value of its expression in
/// the slot of its variable and leave the stack as they found it; where the
/// expression has no value, the machine stops without printing.
pub proof fn lemma_assign_exec(name: Seq<char>, e: Expr, slots: Slots, env: Env, m: Machine)
    requires
        !m.halted,
        slots_wf(slots),
        slots.len() + 2 <= usize::MAX,
        agrees(slots, m.locals, env),
        e.reads_only(slots.dom()),
    ensures
        ({
            let code = expr_code(e, slots) + seq![Instr::Store(assign(slots, name)[name])];
            match eval(e, env) {
                Some(v) => !exec(code, m).halted && exec(code, m).output == m.output && exec(
                    code,
                    m,
                ).stack == m.stack && agrees(
                    assign(slots, name),
                    exec(code, m).locals,
                    env.insert(name, v),
                ),
                None => exec(code, m).halted && exec(code, m).output == m.output,
            }
        }),
{
    let body = expr_code(e, slots);
    let slot = assign(slots, name)[name];
    let store = seq![Instr::Store(slot)];
    lemma_expr_exec(e, slots, env, m);
    lemma_exec_concat(body, store, m);
    let m1 = exec(body, m);
    match eval(e, env) {
        None => {
            lemma_exec_halted(store, m1);
        },
        Some(v) => {
            lemma_exec_one(Instr::Store(slot), m1);
            lemma_assign(slots, name);
            let after = exec(body + store, m);
            assert(m1.stack.take(m1.stack.len() - 1) =~= m.stack);
            let slots2 = assign(slots, name);
            let env2 = env.insert(name, v);
            assert(env2.dom() =~= slots2.dom());
            assert forall|other: Seq<char>| #![trigger slots2.contains_key(other)]
                slots2.contains_key(other) implies after.locals.contains_key(slots2[other])
                && after.locals[slots2[other]] == env2[other] by {
                if other != name {
                    assert(slots.contains_key(other));
                    assert(slots2[other] == slots[other]);
                    assert(slots2.contains_key(name));
                    assert(slots2[other] != slots2[name]);
                }
            }
        },
    }
}

/// The instructions of a print statement print the value of its expression
/// and leave the stack and the slots as they found them; where the
/// expression has no value, the machine stops without printing.
pub proof fn lemma_print_exec(e: Expr, slots: Slots, env: Env, m: Machine)
    requires
        !m.halted,
        agrees(slots, m.locals, env),
        e.reads_only(slots.dom()),
    ensures
        ({
            let code = stmt_code(Stmt::SExpr(Box::new(e)), slots);
            match eval(e, env) {
                Some(v) => exec(code, m) == (Machine { output: m.output.push(v), ..m }),
                None => exec(code, m).halted && exec(code, m).output == m.output,
            }
        }),
{
    let body = expr_code(e, slots);
    let get = seq![Instr::GetPrinter];
    let swap = seq![Instr::Swap];
    let call = seq![Instr::CallPrint];
    if crate::jvm::code::depth(e) == 1 {
        lemma_exec_concat(get + body, call, m);
        lemma_exec_concat(get, body, m);
        lemma_exec_one(Instr::GetPrinter, m);
        let m1 = exec(get, m);
        lemma_expr_exec(e, slots, env, m1);
        let m2 = exec(body, m1);
        match eval(e, env) {
            None => {
                lemma_exec_halted(call, m2);
            },
            Some(v) => {
                lemma_exec_one(Instr::CallPrint, m2);
                let n = m2.stack.len() as int;
                assert(m2.stack.take(n - 2) =~= m.stack);
            },
        }
    } else {
        let tail = seq![Instr::GetPrinter, Instr::Swap, Instr::CallPrint];
        assert(tail =~= get + swap + call);
        lemma_exec_concat(body, tail, m);
        lemma_expr_exec(e, slots, env, m);
        let m1 = exec(body, m);
        match eval(e, env) {
            None => {
                lemma_exec_halted(tail, m1);
            },
            Some(v) => {
                lemma_exec_concat(get + swap, call, m1);
                lemma_exec_concat(get, swap, m1);
                lemma_exec_one(Instr::GetPrinter, m1);
                let m2 = exec(get, m1);
                lemma_exec_one(Instr::Swap, m2);
                let m3 = exec(swap, m2);
                assert(m2.stack.take(m2.stack.len() - 2) =~= m.stack);
                lemma_exec_one(Instr::CallPrint, m3);
                let n = m3.stack.len() as int;
                assert(m3.stack.take(n - 2) =~= m.stack);
            },
        }
    }
}

/// The instructions of a statement do to the machine what the statement
/// means: they print what it prints, stop where it stops, leave the stack as
/// they found it, and keep the slots in step with the variables.
pub proof fn lemma_stmt_exec(s: Stmt, slots: Slots, r: Run, m: Machine)
    requires
        !m.halted,
        !r.halted,
        m.output == r.output,
        slots_wf(slots),
        slots.len() + 2 <= usize::MAX,
        agrees(slots, m.locals, r.env),
        s.expr().reads_only(slots.dom()),
    ensures
        exec(stmt_code(s, slots), m).output == run_stmt(s, r).output,
        exec(stmt_code(s, slots), m).halted == run_stmt(s, r).halted,
        !run_stmt(s, r).halted ==> exec(stmt_code(s, slots), m).stack == m.stack && agrees(
            slots_after(s, slots),
            exec(stmt_code(s, slots), m).locals,
            run_stmt(s, r).env,
        ),
{
    match s {
        Stmt::SAss(name, e) => {
            lemma_assign_exec(name@, *e, slots, r.env, m);
        },
        Stmt::SExpr(e) => {
            lemma_print_exec(*e, slots, r.env, m);
        },
    }
}

/// The instructions of a program, run from the start, print what the
/// program means and stop where it stops; while they run on, the stack is
/// empty after each statement and the slots hold the values of the
/// variables.
pub proof fn lemma_program_exec(stmts: Seq<Box<Stmt>>, n: nat)
    requires
        n <= stmts.len(),
        well_scoped(stmts, n),
        program_size(stmts, n) <= usize::MAX,
    ensures
        exec(program_code(stmts, n), start()).output == crate::semantics::run(stmts, n).output,
        exec(program_code(stmts, n), start()).halted == crate::semantics::run(stmts, n).halted,
        !crate::semantics::run(stmts, n).halted ==> exec(
            program_code(stmts, n),
            start(),
        ).stack.len() == 0 && agrees(
            slots_at(stmts, n),
            exec(program_code(stmts, n), start()).locals,
            crate::semantics::run(stmts, n).env,
        ),
    decreases n,
{
    if n == 0 {
        assert(crate::semantics::run(stmts, n).env.dom() =~= slots_at(stmts, n).dom());
    } else {
        let before = (n - 1) as nat;
        let s = *stmts[n - 1];
        let slots = slots_at(stmts, before);
        let code = program_code(stmts, before);
        lemma_well_scoped_prefix(stmts, before, n);
        lemma_program_size_holds(stmts, before, n);
        lemma_program_exec(stmts, before);
        lemma_slots_at(stmts, before);
        lemma_exec_concat(code, stmt_code(s, slots), start());
        let m = exec(code, start());
        let r = crate::semantics::run(stmts, before);
        if r.halted {
            lemma_exec_halted(stmt_code(s, slots), m);
        } else {
            lemma_stmt_exec(s, slots, r, m);
        }
    }
}

} // verus!
