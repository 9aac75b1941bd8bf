//! The height of the operand stack while emitted instructions run.
use vstd::prelude::*;
use crate::ast::{Expr, Stmt};
use crate::jvm::code::{
    depth, expr_code, program_code, right_first, slots_at, stack_limit, stmt_code, Instr, Slots,
};

verus! {

/// The number of values that an instruction takes from the stack.
pub open spec fn pops(i: Instr) -> int {
    match i {
        Instr::Const(_) => 0,
        Instr::Load(_) => 0,
        Instr::Store(_) => 1,
        Instr::GetPrinter => 0,
        Instr::CallPrint => 2,
        Instr::Swap => 2,
        Instr::Arith(_) => 2,
    }
}

/// The number of values that an instruction leaves on the stack.
pub open spec fn pushes(i: Instr) -> int {
    match i {
        Instr::Const(_) => 1,
        Instr::Load(_) => 1,
        Instr::Store(_) => 0,
        Instr::GetPrinter => 1,
        Instr::CallPrint => 0,
        Instr::Swap => 2,
        Instr::Arith(_) => 1,
    }
}

/// What a run of instructions does to the height of the stack.
pub struct Heights {
    /// No instruction found fewer values than it takes.
    pub safe: bool,
    /// The height after the last instruction.
    pub last: int,
    /// The greatest height at any moment, the start included.
    pub peak: int,
}

/// The heights of a run of `code` that starts at height `start`.
pub open spec fn run(code: Seq<Instr>, start: int) -> Heights
    decreases code.len(),
{
    if code.len() == 0 {
        Heights { safe: true, last: start, peak: start }
    } else {
        let before = run(code.drop_last(), start);
        let last = before.last - pops(code.last()) + pushes(code.last());
        Heights {
            safe: before.safe && before.last >= pops(code.last()),
            last,
            peak: if before.peak >= last {
                before.peak
            } else {
                last
            },
        }
    }
}

/// The heights of two runs in a row.
pub open spec fn in_turn(first: Heights, second: Heights) -> Heights {
    Heights {
        safe: first.safe && second.safe,
        last: second.last,
        peak: if first.peak >= second.peak {
            first.peak
        } else {
            second.peak
        },
    }
}

/// A run of `a + b` is a run of `a` and then a run of `b` from the height
/// that `a` ends at.
pub proof fn lemma_run_concat(a: Seq<Instr>, b: Seq<Instr>, start: int)
    ensures
        run(a + b, start) == in_turn(run(a, start), run(b, run(a, start).last)),
        run(a, start).peak >= start,
    decreases b.len(),
{
    lemma_peak_ge_start(a, start);
    if b.len() == 0 {
        assert(a + b =~= a);
    } else {
        lemma_run_concat(a, b.drop_last(), start);
        lemma_peak_ge_start(b.drop_last(), run(a, start).last);
        assert((a + b).drop_last() =~= a + b.drop_last());
        assert((a + b).last() == b.last());
    }
}

/// The greatest height of a run is at least the height it starts at.
pub proof fn lemma_peak_ge_start(code: Seq<Instr>, start: int)
    ensures
        run(code, start).peak >= start,
    decreases code.len(),
{
    if code.len() > 0 {
        lemma_peak_ge_start(code.drop_last(), start);
    }
}

/// The heights of a run of one instruction.
pub proof fn lemma_run_one(i: Instr, start: int)
    ensures
        run(seq![i], start) == (Heights {
            safe: start >= pops(i),
            last: start - pops(i) + pushes(i),
            peak: if start >= start - pops(i) + pushes(i) {
                start
            } else {
                start - pops(i) + pushes(i)
            },
        }),
{
    let code = seq![i];
    assert(code.drop_last() =~= Seq::<Instr>::empty());
    assert(code.last() == i);
    reveal_with_fuel(run, 2);
}

/// The greatest number of values that the instructions of an expression have
/// on the stack at once: 1 for a leaf; for an operation, what the operand
/// evaluated first needs, or one more than what the other needs above the
/// first result.
pub open spec fn need(e: Expr) -> int
    decreases e,
{
    match e {
        Expr::Number(_) => 1,
        Expr::Ident(_) => 1,
        Expr::Op(l, _, r) => {
            let first = if right_first(*l, *r) {
                need(*r)
            } else {
                need(*l)
            };
            let second = if right_first(*l, *r) {
                need(*l)
            } else {
                need(*r)
            };
            if first >= second + 1 {
                first
            } else {
                second + 1
            }
        },
    }
}

/// The greatest number of values that the instructions of a statement have on
/// the stack at once.
pub open spec fn stmt_need(s: Stmt) -> int {
    match s {
        Stmt::SAss(_, e) => need(*e),
        Stmt::SExpr(e) => if depth(*e) == 1 {
            2
        } else {
            need(*e)
        },
    }
}

/// The greatest number of values that the instructions of the first `n`
/// statements have on the stack at once.
pub open spec fn program_need(stmts: Seq<Box<Stmt>>, n: nat) -> int
    recommends
        n <= stmts.len(),
    decreases n,
{
    if n == 0 {
        0
    } else {
        let before = program_need(stmts, (n - 1) as nat);
        let this = stmt_need(*stmts[n - 1]);
        if before >= this {
            before
        } else {
            this
        }
    }
}

/// The instructions of an expression run from any height without finding the
/// stack too low, leave one value more than they found, and reach the height
/// they started at plus the need of the expression.
pub proof fn lemma_expr_run(e: Expr, slots: Slots, start: int)
    requires
        start >= 0,
    ensures
        run(expr_code(e, slots), start) == (Heights {
            safe: true,
            last: start + 1,
            peak: start + need(e),
        }),
        need(e) >= 1,
        depth(e) == 1 <==> !(e is Op),
        e is Op ==> need(e) >= 2,
    decreases e,
{
    match e {
        Expr::Number(n) => {
            lemma_run_one(Instr::Const(n), start);
        },
        Expr::Ident(name) => {
            lemma_run_one(Instr::Load(slots[name@]), start);
        },
        Expr::Op(l, op, r) => {
            let (first, second) = if right_first(*l, *r) {
                (*r, *l)
            } else {
                (*l, *r)
            };
            let a = expr_code(first, slots);
            let b = expr_code(second, slots);
            lemma_expr_run(first, slots, start);
            lemma_expr_run(second, slots, start + 1);
            lemma_run_concat(a, b, start);
            lemma_run_one(Instr::Arith(op), start + 2);
            if right_first(*l, *r) && !op.commutes() {
                let swap = seq![Instr::Swap];
                let arith = seq![Instr::Arith(op)];
                lemma_run_one(Instr::Swap, start + 2);
                lemma_run_concat(a + b, swap, start);
                lemma_run_concat(a + b + swap, arith, start);
                assert(expr_code(e, slots) =~= a + b + swap + arith);
            } else {
                lemma_run_concat(a + b, seq![Instr::Arith(op)], start);
            }
        },
    }
}

/// The instructions of a statement run from an empty stack without finding
/// it too low, leave it empty, and reach the need of the statement.
pub proof fn lemma_stmt_run(s: Stmt, slots: Slots)
    ensures
        run(stmt_code(s, slots), 0) == (Heights { safe: true, last: 0, peak: stmt_need(s) }),
        stmt_need(s) >= 1,
{
    match s {
        Stmt::SAss(name, e) => {
            let body = expr_code(*e, slots);
            let store = Instr::Store(crate::jvm::code::assign(slots, name@)[name@]);
            lemma_expr_run(*e, slots, 0);
            lemma_run_one(store, 1);
            lemma_run_concat(body, seq![store], 0);
        },
        Stmt::SExpr(e) => {
            let body = expr_code(*e, slots);
            if depth(*e) == 1 {
                let head = seq![Instr::GetPrinter];
                lemma_run_one(Instr::GetPrinter, 0);
                lemma_expr_run(*e, slots, 1);
                lemma_run_one(Instr::CallPrint, 2);
                lemma_run_concat(head, body, 0);
                lemma_run_concat(head + body, seq![Instr::CallPrint], 0);
            } else {
                let get = seq![Instr::GetPrinter];
                let swap = seq![Instr::Swap];
                let call = seq![Instr::CallPrint];
                lemma_expr_run(*e, slots, 0);
                lemma_run_one(Instr::GetPrinter, 1);
                lemma_run_one(Instr::Swap, 2);
                lemma_run_one(Instr::CallPrint, 2);
                lemma_run_concat(body, get, 0);
                lemma_run_concat(body + get, swap, 0);
                lemma_run_concat(body + get + swap, call, 0);
                assert(stmt_code(s, slots) =~= body + get + swap + call);
            }
        },
    }
}

/// The instructions of a program run from an empty stack without finding it
/// too low, leave it empty after each statement, and reach at most, and
/// somewhere exactly, the greatest need among the statements.
pub proof fn lemma_program_run(stmts: Seq<Box<Stmt>>, n: nat)
    requires
        n <= stmts.len(),
    ensures
        run(program_code(stmts, n), 0) == (Heights {
            safe: true,
            last: 0,
            peak: program_need(stmts, n),
        }),
    decreases n,
{
    if n > 0 {
        let before = (n - 1) as nat;
        lemma_program_run(stmts, before);
        lemma_stmt_run(*stmts[n - 1], slots_at(stmts, before));
        lemma_run_concat(
            program_code(stmts, before),
            stmt_code(*stmts[n - 1], slots_at(stmts, before)),
            0,
        );
    }
}

/// Where the declared stack limit of a program is the greatest need among
/// its statements, it is the greatest height that the stack reaches when the
/// instructions of the program run.
pub proof fn lemma_declared_limit_is_reached(stmts: Seq<Box<Stmt>>)
    requires
        stack_limit(stmts, stmts.len()) == program_need(stmts, stmts.len()),
    ensures
        run(program_code(stmts, stmts.len()), 0).safe,
        run(program_code(stmts, stmts.len()), 0).peak == stack_limit(stmts, stmts.len()),
{
    lemma_program_run(stmts, stmts.len());
}

} // verus!
