//! What the stack-machine backend emits, stated over instructions rather than
//! text: the stack need of an expression, the instructions of an expression,
//! a statement and a program, and the text of each instruction.
use vstd::prelude::*;
use crate::ast::{assigned, lemma_program_size_holds, program_size, Expr, Opcode, Stmt};
use crate::text::{decimal, join, numeral};

verus! {

/// An instruction of the stack machine.
pub enum Instr {
    /// Pushes a constant.
    Const(i32),
    /// Pushes the value of a local-variable slot.
    Load(usize),
    /// Pops a value into a local-variable slot.
    Store(usize),
    /// Pushes a reference to the output stream.
    GetPrinter,
    /// Pops a value and, below it, the output stream, and prints the value.
    CallPrint,
    /// Exchanges the two topmost values.
    Swap,
    /// Pops two values and pushes the result of the operator on them.
    Arith(Opcode),
}

/// The slot of each variable that has been assigned so far.
pub type Slots = Map<Seq<char>, usize>;

/// The stack need that the analysis assigns to an expression: 1 for a leaf,
/// one more than the smaller need of the two operands for an operation.
pub open spec fn depth(e: Expr) -> nat
    decreases e,
{
    match e {
        Expr::Number(_) => 1,
        Expr::Ident(_) => 1,
        Expr::Op(l, _, r) => if depth(*l) <= depth(*r) {
            depth(*l) + 1
        } else {
            depth(*r) + 1
        },
    }
}

/// A leaf needs one slot of the stack, and an operation one more than the
/// smaller need of its two operands.
pub proof fn lemma_depth_rule(e: Expr)
    ensures
        match e {
            Expr::Number(_) => depth(e) == 1,
            Expr::Ident(_) => depth(e) == 1,
            Expr::Op(l, _, r) => depth(e) == vstd::math::min(depth(*l) as int, depth(*r) as int)
                + 1,
        },
{
}

/// The stack need of a statement: that of its expression, and one slot more
/// for a store, two more for a print.
pub open spec fn stmt_limit(s: Stmt) -> nat {
    match s {
        Stmt::SAss(_, e) => depth(*e) + 1,
        Stmt::SExpr(e) => depth(*e) + 2,
    }
}

/// The largest stack need among the first `n` statements; 0 where there is
/// none.
pub open spec fn stack_limit(stmts: Seq<Box<Stmt>>, n: nat) -> nat
    recommends
        n <= stmts.len(),
    decreases n,
{
    if n == 0 {
        0
    } else {
        let before = stack_limit(stmts, (n - 1) as nat);
        let this = stmt_limit(*stmts[n - 1]);
        if before >= this {
            before
        } else {
            this
        }
    }
}

/// Whether the operation evaluates its right operand first: it does where the
/// right operand has the strictly smaller stack need.
pub open spec fn right_first(l: Expr, r: Expr) -> bool {
    depth(r) < depth(l)
}

/// The instructions that leave the value of `e` on top of the stack.
pub open spec fn expr_code(e: Expr, slots: Slots) -> Seq<Instr>
    decreases e,
{
    match e {
        Expr::Number(n) => seq![Instr::Const(n)],
        Expr::Ident(name) => seq![Instr::Load(slots[name@])],
        Expr::Op(l, op, r) => if !right_first(*l, *r) {
            expr_code(*l, slots) + expr_code(*r, slots) + seq![Instr::Arith(op)]
        } else if op.commutes() {
            expr_code(*r, slots) + expr_code(*l, slots) + seq![Instr::Arith(op)]
        } else {
            expr_code(*r, slots) + expr_code(*l, slots) + seq![Instr::Swap, Instr::Arith(op)]
        },
    }
}

/// The number of exchange instructions in a sequence.
pub open spec fn exchanges(code: Seq<Instr>) -> nat
    decreases code.len(),
{
    if code.len() == 0 {
        0
    } else if code.last() is Swap {
        exchanges(code.drop_last()) + 1
    } else {
        exchanges(code.drop_last())
    }
}

/// The number of operations in an expression that evaluate their right
/// operand first and do not commute.
pub open spec fn reversed(e: Expr) -> nat
    decreases e,
{
    match e {
        Expr::Number(_) => 0,
        Expr::Ident(_) => 0,
        Expr::Op(l, op, r) => if right_first(*l, *r) && !op.commutes() {
            reversed(*l) + reversed(*r) + 1
        } else {
            reversed(*l) + reversed(*r)
        },
    }
}

/// The exchanges of two sequences in a row are those of both.
pub proof fn lemma_exchanges_concat(a: Seq<Instr>, b: Seq<Instr>)
    ensures
        exchanges(a + b) == exchanges(a) + exchanges(b),
    decreases b.len(),
{
    if b.len() == 0 {
        assert(a + b =~= a);
    } else {
        lemma_exchanges_concat(a, b.drop_last());
        assert((a + b).drop_last() =~= a + b.drop_last());
        assert((a + b).last() == b.last());
    }
}

/// The instructions of an expression end with the one that leaves its value:
/// a push, a load or an operator, never an exchange.
pub proof fn lemma_expr_code_end(e: Expr, slots: Slots)
    ensures
        expr_code(e, slots).len() >= 1,
        match e {
            Expr::Number(n) => expr_code(e, slots).last() == Instr::Const(n),
            Expr::Ident(name) => expr_code(e, slots).last() == Instr::Load(slots[name@]),
            Expr::Op(_, op, _) => expr_code(e, slots).last() == Instr::Arith(op),
        },
{
}

/// An exchange stands before the instruction of an operator if and only if
/// the operation evaluates its right operand first and does not commute.
pub proof fn lemma_exchange_rule(l: Expr, op: Opcode, r: Expr, slots: Slots)
    ensures
        ({
            let code = expr_code(Expr::Op(Box::new(l), op, Box::new(r)), slots);
            &&& code.len() >= 3
            &&& code.last() == Instr::Arith(op)
            &&& code[code.len() - 2] is Swap <==> right_first(l, r) && !op.commutes()
        }),
{
    lemma_expr_code_end(l, slots);
    lemma_expr_code_end(r, slots);
}

/// The instructions of an expression hold as many exchanges as the
/// expression has operations that evaluate their right operand first and do
/// not commute.
pub proof fn lemma_exchanges_are_reversals(e: Expr, slots: Slots)
    ensures
        exchanges(expr_code(e, slots)) == reversed(e),
    decreases e,
{
    match e {
        Expr::Number(n) => {
            lemma_exchanges_one(Instr::Const(n));
        },
        Expr::Ident(name) => {
            lemma_exchanges_one(Instr::Load(slots[name@]));
        },
        Expr::Op(l, op, r) => {
            lemma_exchanges_are_reversals(*l, slots);
            lemma_exchanges_are_reversals(*r, slots);
            let a = expr_code(*l, slots);
            let b = expr_code(*r, slots);
            lemma_exchanges_one(Instr::Arith(op));
            lemma_exchanges_one(Instr::Swap);
            if !right_first(*l, *r) {
                lemma_exchanges_concat(a, b);
                lemma_exchanges_concat(a + b, seq![Instr::Arith(op)]);
            } else {
                lemma_exchanges_concat(b, a);
                if op.commutes() {
                    lemma_exchanges_concat(b + a, seq![Instr::Arith(op)]);
                } else {
                    lemma_exchanges_concat(seq![Instr::Swap], seq![Instr::Arith(op)]);
                    assert(seq![Instr::Swap] + seq![Instr::Arith(op)] =~= seq![
                        Instr::Swap,
                        Instr::Arith(op),
                    ]);
                    lemma_exchanges_concat(b + a, seq![Instr::Swap, Instr::Arith(op)]);
                }
            }
        },
    }
}

/// The exchanges of a single instruction.
pub proof fn lemma_exchanges_one(i: Instr)
    ensures
        exchanges(seq![i]) == if i is Swap {
            1nat
        } else {
            0nat
        },
{
    assert(seq![i].drop_last() =~= Seq::<Instr>::empty());
    reveal_with_fuel(exchanges, 2);
}

/// The slot that the next variable to be assigned for the first time gets.
pub open spec fn next_slot(slots: Slots) -> nat {
    slots.len() + 1
}

/// The slot table after an assignment to `name`: a name that has a slot
/// keeps it, a new name gets the next free one.
pub open spec fn assign(slots: Slots, name: Seq<char>) -> Slots {
    if slots.contains_key(name) {
        slots
    } else {
        slots.insert(name, next_slot(slots) as usize)
    }
}

/// The slot table after a statement.
pub open spec fn slots_after(s: Stmt, slots: Slots) -> Slots {
    match s {
        Stmt::SAss(name, _) => assign(slots, name@),
        Stmt::SExpr(_) => slots,
    }
}

/// The instructions of a statement. A printed leaf is pushed above the output
/// stream; any other printed expression is evaluated first and exchanged
/// with the stream.
pub open spec fn stmt_code(s: Stmt, slots: Slots) -> Seq<Instr> {
    match s {
        Stmt::SAss(name, e) => expr_code(*e, slots) + seq![
            Instr::Store(assign(slots, name@)[name@]),
        ],
        Stmt::SExpr(e) => if depth(*e) == 1 {
            seq![Instr::GetPrinter] + expr_code(*e, slots) + seq![Instr::CallPrint]
        } else {
            expr_code(*e, slots) + seq![Instr::GetPrinter, Instr::Swap, Instr::CallPrint]
        },
    }
}

/// The instructions of an assignment hold the exchanges of its expression;
/// those of a print hold one more where the printed expression is an
/// operation, the exchange that puts the output stream below the value.
pub proof fn lemma_stmt_exchanges(s: Stmt, slots: Slots)
    ensures
        exchanges(stmt_code(s, slots)) == match s {
            Stmt::SAss(_, e) => reversed(*e),
            Stmt::SExpr(e) => if depth(*e) == 1 {
                reversed(*e)
            } else {
                reversed(*e) + 1
            },
        },
{
    match s {
        Stmt::SAss(name, e) => {
            let store = Instr::Store(assign(slots, name@)[name@]);
            lemma_exchanges_are_reversals(*e, slots);
            lemma_exchanges_one(store);
            lemma_exchanges_concat(expr_code(*e, slots), seq![store]);
        },
        Stmt::SExpr(e) => {
            let body = expr_code(*e, slots);
            let get = seq![Instr::GetPrinter];
            let swap = seq![Instr::Swap];
            let call = seq![Instr::CallPrint];
            lemma_exchanges_are_reversals(*e, slots);
            lemma_exchanges_one(Instr::GetPrinter);
            lemma_exchanges_one(Instr::Swap);
            lemma_exchanges_one(Instr::CallPrint);
            if depth(*e) == 1 {
                lemma_exchanges_concat(get, body);
                lemma_exchanges_concat(get + body, call);
            } else {
                lemma_exchanges_concat(body, get);
                lemma_exchanges_concat(body + get, swap);
                lemma_exchanges_concat(body + get + swap, call);
                assert(stmt_code(s, slots) =~= body + get + swap + call);
            }
        },
    }
}

/// The slot table after the first `n` statements of a program that starts
/// with no variable assigned.
pub open spec fn slots_at(stmts: Seq<Box<Stmt>>, n: nat) -> Slots
    recommends
        n <= stmts.len(),
    decreases n,
{
    if n == 0 {
        Map::empty()
    } else {
        slots_after(*stmts[n - 1], slots_at(stmts, (n - 1) as nat))
    }
}

/// A slot table as emission keeps it: finitely many names, each with a slot
/// from 1 up to their number, no slot twice, and room for one more.
pub open spec fn slots_wf(slots: Slots) -> bool {
    &&& slots.dom().finite()
    &&& next_slot(slots) <= usize::MAX
    &&& forall|name: Seq<char>| #![trigger slots.contains_key(name)]
        slots.contains_key(name) ==> 1 <= slots[name] <= slots.len()
    &&& forall|a: Seq<char>, b: Seq<char>|
        slots.contains_key(a) && slots.contains_key(b) && a != b ==> #[trigger] slots[a]
            != #[trigger] slots[b]
}

/// An assignment keeps a slot table in order, adds at most one name to it,
/// and leaves every name that had a slot with that slot.
pub proof fn lemma_assign(slots: Slots, name: Seq<char>)
    requires
        slots_wf(slots),
        slots.len() + 2 <= usize::MAX,
    ensures
        slots_wf(assign(slots, name)),
        assign(slots, name).dom() == slots.dom().insert(name),
        assign(slots, name).len() <= slots.len() + 1,
        forall|other: Seq<char>| #![trigger slots.contains_key(other)]
            slots.contains_key(other) ==> assign(slots, name)[other] == slots[other],
{
    assert(assign(slots, name).dom() =~= slots.dom().insert(name));
}

/// The slot table of a program is in order after any number of its
/// statements, and holds the variables that those statements assign.
pub proof fn lemma_slots_at(stmts: Seq<Box<Stmt>>, n: nat)
    requires
        n <= stmts.len(),
        program_size(stmts, n) <= usize::MAX,
    ensures
        slots_wf(slots_at(stmts, n)),
        slots_at(stmts, n).len() <= n,
        slots_at(stmts, n).dom() == assigned(stmts, n),
    decreases n,
{
    if n > 0 {
        let before = (n - 1) as nat;
        lemma_program_size_holds(stmts, before, n);
        lemma_slots_at(stmts, before);
        match *stmts[n - 1] {
            Stmt::SAss(name, _) => {
                lemma_assign(slots_at(stmts, before), name@);
            },
            Stmt::SExpr(_) => {},
        }
    } else {
        assert(slots_at(stmts, n).dom() =~= assigned(stmts, n));
    }
}

/// A variable keeps its slot: the slot that it has after `i` statements it
/// has after any greater number of them.
pub proof fn lemma_slot_is_stable(stmts: Seq<Box<Stmt>>, i: nat, j: nat, name: Seq<char>)
    requires
        i <= j <= stmts.len(),
        slots_at(stmts, i).contains_key(name),
    ensures
        slots_at(stmts, j).contains_key(name),
        slots_at(stmts, j)[name] == slots_at(stmts, i)[name],
    decreases j,
{
    if i < j {
        lemma_slot_is_stable(stmts, i, (j - 1) as nat, name);
    }
}

/// No two variables share a slot.
pub proof fn lemma_slots_are_distinct(
    stmts: Seq<Box<Stmt>>,
    n: nat,
    a: Seq<char>,
    b: Seq<char>,
)
    requires
        n <= stmts.len(),
        program_size(stmts, n) <= usize::MAX,
        slots_at(stmts, n).contains_key(a),
        slots_at(stmts, n).contains_key(b),
        a != b,
    ensures
        slots_at(stmts, n)[a] != slots_at(stmts, n)[b],
{
    lemma_slots_at(stmts, n);
}

/// The instructions of the first `n` statements.
pub open spec fn program_code(stmts: Seq<Box<Stmt>>, n: nat) -> Seq<Instr>
    recommends
        n <= stmts.len(),
    decreases n,
{
    if n == 0 {
        Seq::empty()
    } else {
        program_code(stmts, (n - 1) as nat) + stmt_code(
            *stmts[n - 1],
            slots_at(stmts, (n - 1) as nat),
        )
    }
}

/// The text of the instruction that pushes `n`, chosen by the range that `n`
/// lies in.
pub open spec fn const_text(n: i32) -> Seq<char> {
    if n == -1 {
        "iconst_m1"@
    } else if 1 <= n <= 5 {
        "iconst_"@ + decimal(n as int)
    } else if -128 <= n <= 127 {
        "bipush "@ + decimal(n as int)
    } else if -32768 <= n <= 32767 {
        "sipush "@ + decimal(n as int)
    } else {
        "ldc "@ + decimal(n as int)
    }
}

/// The text of the instruction that loads slot `i`.
pub open spec fn load_text(i: usize) -> Seq<char> {
    if i <= 3 {
        "iload_"@ + numeral(i as nat)
    } else {
        "iload "@ + numeral(i as nat)
    }
}

/// The text of the instruction that stores into slot `i`.
pub open spec fn store_text(i: usize) -> Seq<char> {
    if i <= 3 {
        "istore_"@ + numeral(i as nat)
    } else {
        "istore "@ + numeral(i as nat)
    }
}

/// The text of the instruction of an operator.
pub open spec fn arith_text(op: Opcode) -> Seq<char> {
    match op {
        Opcode::Add => "iadd"@,
        Opcode::Sub => "isub"@,
        Opcode::Mul => "imul"@,
        Opcode::Div => "idiv"@,
    }
}

/// The text of an instruction.
pub open spec fn instr_text(i: Instr) -> Seq<char> {
    match i {
        Instr::Const(n) => const_text(n),
        Instr::Load(slot) => load_text(slot),
        Instr::Store(slot) => store_text(slot),
        Instr::GetPrinter => "getstatic  java/lang/System/out Ljava/io/PrintStream;"@,
        Instr::CallPrint => "invokevirtual java/io/PrintStream/println(I)V"@,
        Instr::Swap => "swap"@,
        Instr::Arith(op) => arith_text(op),
    }
}

/// The text of each instruction of a sequence.
pub open spec fn listing(code: Seq<Instr>) -> Seq<Seq<char>> {
    Seq::new(code.len(), |i: int| instr_text(code[i]))
}

/// The assembly text of a class `class_name` whose main method declares the
/// two limits and holds the given instruction lines.
pub open spec fn assembly(
    class_name: Seq<char>,
    limit_stack: nat,
    limit_locals: nat,
    lines: Seq<Seq<char>>,
) -> Seq<char> {
    ".class public "@ + class_name + "\n"@ + ".super  java/lang/Object\n"@
        + ".method public <init>()V\n\taload_0\n\tinvokespecial java/lang/Object/<init>()V\n\treturn\n.end method\n"@
        + ".method public static main([Ljava/lang/String;)V\n"@ + ".limit stack "@ + numeral(
        limit_stack,
    ) + "\n"@ + ".limit locals "@ + numeral(limit_locals) + "\n"@ + join(lines, "\n\t"@)
        + "\n\treturn\n.end method\n"@
}

/// The text that a program compiles to.
pub open spec fn program_text(stmts: Seq<Box<Stmt>>, class_name: Seq<char>) -> Seq<char> {
    assembly(
        class_name,
        stack_limit(stmts, stmts.len()),
        next_slot(slots_at(stmts, stmts.len())),
        listing(program_code(stmts, stmts.len())),
    )
}

} // verus!
