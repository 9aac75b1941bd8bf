//! What the register-machine backend emits, stated over instructions rather
//! than text: the instructions of an expression, a statement and a program,
//! the numbering of their results, and the text of each instruction.
use vstd::prelude::*;
use crate::ast::{Expr, Opcode, Stmt};
use crate::text::{
    decimal, is_digit, join, lemma_numeral_digits, lemma_stem_and_number, numeral,
};

verus! {

/// A value that an instruction takes or defines.
pub enum Operand {
    /// A literal.
    Constant(i32),
    /// The result of an operation, by its number.
    Register(usize),
    /// What a read of a variable loaded, by the variable's name and the
    /// number of the read among the reads of that variable.
    RegisterVar(Seq<char>, usize),
}

/// An instruction of the register machine.
pub enum Instr {
    /// Allocates the memory location of a variable.
    Alloca(Seq<char>),
    /// Writes a value to the location of a variable.
    Store(Operand, Seq<char>),
    /// Prints a value.
    Print(Operand),
    /// Defines a result as what the location of a variable holds.
    Load(Operand, Seq<char>),
    /// Defines a result as an operator applied to two values.
    Arithmetic(Operand, Opcode, Operand, Operand),
}

/// The counters of an emission.
pub struct Counters {
    /// The number of the last operation; 0 where there was none yet.
    pub registers: usize,
    /// For each variable that was read, the number of its last read,
    /// counted from 0.
    pub reads: Map<Seq<char>, usize>,
    /// The variables that have a memory location.
    pub allocated: Set<Seq<char>>,
}

/// What an expression gives rise to: its instructions, the value that stands
/// for its result, and the counters after it.
pub struct Emitted {
    pub code: Seq<Instr>,
    pub result: Operand,
    pub counters: Counters,
}

/// The counters before anything is emitted.
pub open spec fn start() -> Counters {
    Counters { registers: 0, reads: Map::empty(), allocated: Set::empty() }
}

/// No counter has passed `issued`: the registers number at most that many,
/// and so do the reads of each variable.
pub open spec fn within(c: Counters, issued: nat) -> bool {
    &&& c.registers <= issued
    &&& forall|name: Seq<char>| #![trigger c.reads.contains_key(name)]
        c.reads.contains_key(name) ==> c.reads[name] < issued
}

/// Whether the counters have numbered a result: a register has a number
/// from 1 up to the last, a read of a variable a number up to that of its
/// last read.
pub open spec fn numbered(v: Operand, c: Counters) -> bool {
    match v {
        Operand::Constant(_) => false,
        Operand::Register(k) => 1 <= k <= c.registers,
        Operand::RegisterVar(name, j) => c.reads.contains_key(name) && j <= c.reads[name],
    }
}

/// The number that the next read of `name` gets: 0 for the first, one more
/// than the last otherwise.
pub open spec fn next_read(reads: Map<Seq<char>, usize>, name: Seq<char>) -> nat {
    if reads.contains_key(name) {
        (reads[name] + 1) as nat
    } else {
        0
    }
}

/// The instructions, result and counters of an expression. A literal stands
/// for itself; a variable is loaded into a result of its own at each read;
/// an operation evaluates its left operand, then its right one, and takes
/// the next register.
pub open spec fn expr_code(e: Expr, c: Counters) -> Emitted
    decreases e,
{
    match e {
        Expr::Number(n) => Emitted { code: Seq::empty(), result: Operand::Constant(n), counters: c },
        Expr::Ident(name) => {
            let result = Operand::RegisterVar(name@, next_read(c.reads, name@) as usize);
            Emitted {
                code: seq![Instr::Load(result, name@)],
                result,
                counters: Counters {
                    reads: c.reads.insert(name@, next_read(c.reads, name@) as usize),
                    ..c
                },
            }
        },
        Expr::Op(l, op, r) => {
            let left = expr_code(*l, c);
            let right = expr_code(*r, left.counters);
            let result = Operand::Register((right.counters.registers + 1) as usize);
            Emitted {
                code: left.code + right.code + seq![
                    Instr::Arithmetic(result, op, left.result, right.result),
                ],
                result,
                counters: Counters {
                    registers: (right.counters.registers + 1) as usize,
                    ..right.counters
                },
            }
        },
    }
}

/// The allocated variables have no part in what an expression gives rise
/// to: with another set of them the instructions, the result and the other
/// counters are the same.
pub proof fn lemma_expr_ignores_allocated(e: Expr, c: Counters, allocated: Set<Seq<char>>)
    ensures
        expr_code(e, Counters { allocated, ..c }) == (Emitted {
            counters: Counters { allocated, ..expr_code(e, c).counters },
            ..expr_code(e, c)
        }),
    decreases e,
{
    match e {
        Expr::Number(_) => {},
        Expr::Ident(_) => {},
        Expr::Op(l, _, r) => {
            lemma_expr_ignores_allocated(*l, c, allocated);
            lemma_expr_ignores_allocated(*r, expr_code(*l, c).counters, allocated);
        },
    }
}

/// The instructions of a statement. An assignment allocates the location of
/// a variable that has none, evaluates the expression and stores its result;
/// a print evaluates the expression and prints its result.
pub open spec fn stmt_code(s: Stmt, c: Counters) -> Seq<Instr> {
    match s {
        Stmt::SAss(name, e) => {
            let head = if c.allocated.contains(name@) {
                Seq::empty()
            } else {
                seq![Instr::Alloca(name@)]
            };
            let body = expr_code(*e, c);
            head + body.code + seq![Instr::Store(body.result, name@)]
        },
        Stmt::SExpr(e) => {
            let body = expr_code(*e, c);
            body.code + seq![Instr::Print(body.result)]
        },
    }
}

/// The counters after a statement.
pub open spec fn counters_after(s: Stmt, c: Counters) -> Counters {
    match s {
        Stmt::SAss(name, e) => Counters {
            allocated: c.allocated.insert(name@),
            ..expr_code(*e, c).counters
        },
        Stmt::SExpr(e) => expr_code(*e, c).counters,
    }
}

/// An expression gives rise to at most as many instructions as it has
/// nodes, keeps the counters within the number of instructions, and leaves
/// the allocated variables as they are.
pub proof fn lemma_expr_counters(e: Expr, c: Counters, issued: nat)
    requires
        within(c, issued),
        issued + e.size() <= usize::MAX,
    ensures
        expr_code(e, c).code.len() <= e.size(),
        within(expr_code(e, c).counters, issued + expr_code(e, c).code.len()),
        expr_code(e, c).counters.allocated == c.allocated,
    decreases e,
{
    match e {
        Expr::Number(_) => {},
        Expr::Ident(_) => {},
        Expr::Op(l, _, r) => {
            lemma_expr_counters(*l, c, issued);
            let left = expr_code(*l, c);
            lemma_expr_counters(*r, left.counters, issued + left.code.len());
        },
    }
}

/// A statement gives rise to at most as many instructions as its size, and
/// keeps the counters within the number of instructions.
pub proof fn lemma_stmt_counters(s: Stmt, c: Counters, issued: nat)
    requires
        within(c, issued),
        issued + s.size() <= usize::MAX,
    ensures
        stmt_code(s, c).len() <= s.size(),
        within(counters_after(s, c), issued + stmt_code(s, c).len()),
{
    lemma_expr_counters(s.expr(), c, issued);
}

/// The counters after the first `n` statements of a program.
pub open spec fn counters_at(stmts: Seq<Box<Stmt>>, n: nat) -> Counters
    recommends
        n <= stmts.len(),
    decreases n,
{
    if n == 0 {
        start()
    } else {
        counters_after(*stmts[n - 1], counters_at(stmts, (n - 1) as nat))
    }
}

/// The instructions of the first `n` statements.
pub open spec fn program_code(stmts: Seq<Box<Stmt>>, n: nat) -> Seq<Instr>
    recommends
        n <= stmts.len(),
    decreases n,
{
    if n == 0 {
        Seq::empty()
    } else {
        program_code(stmts, (n - 1) as nat) + stmt_code(
            *stmts[n - 1],
            counters_at(stmts, (n - 1) as nat),
        )
    }
}

/// Whether the name of a variable is set apart by a mark of its own before
/// a counter is written behind it: the empty name and a name that ends in a
/// digit, behind which the counter could not be told from the name.
pub open spec fn ends_in_digit(name: Seq<char>) -> bool {
    name.len() == 0 || is_digit(name.last())
}

/// Whether the name of a variable would read as something else in the text:
/// `r`, which with its counter reads as a register, a name that starts with
/// `loc_`, which reads as a location, and a name that starts with one of the
/// two marks.
pub open spec fn reserved(name: Seq<char>) -> bool {
    name == "r"@ || "loc_"@.is_prefix_of(name) || "var__"@.is_prefix_of(name)
        || "num__"@.is_prefix_of(name)
}

/// What stands for a variable before the counter of a read: the name itself
/// for most names; `var__` and the name for a reserved name; `num__`, the
/// name and `_` for a name that ends in a digit.
pub open spec fn stem(name: Seq<char>) -> Seq<char> {
    if ends_in_digit(name) {
        "num__"@ + name + "_"@
    } else if reserved(name) {
        "var__"@ + name
    } else {
        name
    }
}

/// The identifier of the memory location of a variable.
pub open spec fn loc_text(name: Seq<char>) -> Seq<char> {
    "%loc_"@ + name
}

/// The text of a value: a literal in decimal, a register as `%r` and its
/// number, the result of a read as `%`, the stem of the variable and the
/// number of the read.
pub open spec fn operand_text(v: Operand) -> Seq<char> {
    match v {
        Operand::Constant(n) => decimal(n as int),
        Operand::Register(r) => "%r"@ + numeral(r as nat),
        Operand::RegisterVar(name, count) => "%"@ + stem(name) + numeral(count as nat),
    }
}

/// The text of an instruction.
pub open spec fn instr_text(i: Instr) -> Seq<char> {
    match i {
        Instr::Alloca(name) => loc_text(name) + " = alloca i32"@,
        Instr::Store(v, name) => "store i32 "@ + operand_text(v) + ", i32* "@ + loc_text(name),
        Instr::Print(v) => "call void @printInt(i32 "@ + operand_text(v) + ")"@,
        Instr::Load(result, name) => operand_text(result) + " = load i32, i32* "@ + loc_text(
            name,
        ),
        Instr::Arithmetic(result, op, l, r) => operand_text(result) + " = "@ + op.text()
            + " i32 "@ + operand_text(l) + ", "@ + operand_text(r),
    }
}

/// A stem is not empty, does not end in a digit, is not `r` and does not
/// start with `loc_`.
pub proof fn lemma_stem_shape(name: Seq<char>)
    ensures
        stem(name).len() >= 1,
        !is_digit(stem(name).last()),
        stem(name) != "r"@,
        !"loc_"@.is_prefix_of(stem(name)),
{
    reveal_strlit("r");
    reveal_strlit("_");
    reveal_strlit("loc_");
    reveal_strlit("var__");
    reveal_strlit("num__");
    let s = stem(name);
    if ends_in_digit(name) {
        assert(s.last() == '_');
        assert(s[0] == 'n');
        if "loc_"@.is_prefix_of(s) {
            assert(s.subrange(0, 4)[0] == "loc_"@[0]);
        }
    } else if reserved(name) {
        assert(s.last() == name.last());
        assert(s[0] == 'v');
        if "loc_"@.is_prefix_of(s) {
            assert(s.subrange(0, 4)[0] == "loc_"@[0]);
        }
    }
}

/// Two variables with the same stem are the same variable.
pub proof fn lemma_stem_injective(a: Seq<char>, b: Seq<char>)
    requires
        stem(a) == stem(b),
    ensures
        a == b,
{
    reveal_strlit("_");
    reveal_strlit("var__");
    reveal_strlit("num__");
    let s = stem(a);
    let marked = |name: Seq<char>| "num__"@ + name + "_"@;
    let kept = |name: Seq<char>| "var__"@ + name;
    if ends_in_digit(a) && ends_in_digit(b) {
        assert(a =~= marked(a).subrange(5, 5 + a.len() as int));
        assert(b =~= marked(b).subrange(5, 5 + b.len() as int));
        assert(marked(a).len() == a.len() + 6);
        assert(marked(b).len() == b.len() + 6);
    } else if ends_in_digit(a) {
        assert(marked(a)[0] == 'n');
        if reserved(b) {
            assert(kept(b)[0] == 'v');
        } else {
            assert("num__"@ =~= marked(a).subrange(0, 5));
            assert("num__"@.is_prefix_of(b));
        }
    } else if ends_in_digit(b) {
        assert(marked(b)[0] == 'n');
        if reserved(a) {
            assert(kept(a)[0] == 'v');
        } else {
            assert("num__"@ =~= marked(b).subrange(0, 5));
            assert("num__"@.is_prefix_of(a));
        }
    } else if reserved(a) && reserved(b) {
        assert(a =~= kept(a).subrange(5, 5 + a.len() as int));
        assert(b =~= kept(b).subrange(5, 5 + b.len() as int));
        assert(kept(a).len() == a.len() + 5);
        assert(kept(b).len() == b.len() + 5);
    } else if reserved(a) {
        assert("var__"@ =~= kept(a).subrange(0, 5));
        assert("var__"@.is_prefix_of(b));
    } else if reserved(b) {
        assert("var__"@ =~= kept(b).subrange(0, 5));
        assert("var__"@.is_prefix_of(a));
    }
}

/// No two results have the same identifier: two operands that are not
/// literals and are written alike are the same operand.
pub proof fn lemma_operand_text_injective(a: Operand, b: Operand)
    requires
        !(a is Constant),
        !(b is Constant),
        operand_text(a) == operand_text(b),
    ensures
        a == b,
{
    reveal_strlit("%");
    reveal_strlit("%r");
    reveal_strlit("r");
    let r = "r"@;
    match (a, b) {
        (Operand::Register(m), Operand::Register(n)) => {
            assert("%r"@ + numeral(m as nat) =~= "%"@ + (r + numeral(m as nat)));
            assert("%r"@ + numeral(n as nat) =~= "%"@ + (r + numeral(n as nat)));
            lemma_after_percent(r + numeral(m as nat), r + numeral(n as nat));
            lemma_stem_and_number(r, m as nat, r, n as nat);
        },
        (Operand::RegisterVar(x, j), Operand::RegisterVar(y, k)) => {
            lemma_stem_shape(x);
            lemma_stem_shape(y);
            assert("%"@ + stem(x) + numeral(j as nat) =~= "%"@ + (stem(x) + numeral(j as nat)));
            assert("%"@ + stem(y) + numeral(k as nat) =~= "%"@ + (stem(y) + numeral(k as nat)));
            lemma_after_percent(stem(x) + numeral(j as nat), stem(y) + numeral(k as nat));
            lemma_stem_and_number(stem(x), j as nat, stem(y), k as nat);
            lemma_stem_injective(x, y);
        },
        (Operand::Register(n), Operand::RegisterVar(x, k)) => {
            lemma_register_is_no_read(n, x, k);
        },
        (Operand::RegisterVar(x, k), Operand::Register(n)) => {
            lemma_register_is_no_read(n, x, k);
        },
        _ => {},
    }
}

/// Two texts that are equal after `%` are equal.
proof fn lemma_after_percent(s: Seq<char>, t: Seq<char>)
    requires
        "%"@ + s == "%"@ + t,
    ensures
        s == t,
{
    reveal_strlit("%");
    assert(s =~= ("%"@ + s).subrange(1, 1 + s.len() as int));
    assert(t =~= ("%"@ + t).subrange(1, 1 + t.len() as int));
    assert(("%"@ + s).len() == 1 + s.len());
    assert(("%"@ + t).len() == 1 + t.len());
}

/// A register is not written like the result of a read.
pub proof fn lemma_register_is_no_read(n: usize, name: Seq<char>, count: usize)
    ensures
        operand_text(Operand::Register(n)) != operand_text(Operand::RegisterVar(name, count)),
{
    reveal_strlit("%");
    reveal_strlit("%r");
    reveal_strlit("r");
    let r = "r"@;
    if operand_text(Operand::Register(n)) == operand_text(Operand::RegisterVar(name, count)) {
        lemma_stem_shape(name);
        assert("%r"@ + numeral(n as nat) =~= "%"@ + (r + numeral(n as nat)));
        assert("%"@ + stem(name) + numeral(count as nat) =~= "%"@ + (stem(name) + numeral(
            count as nat,
        )));
        lemma_after_percent(r + numeral(n as nat), stem(name) + numeral(count as nat));
        lemma_stem_and_number(r, n as nat, stem(name), count as nat);
    }
}

/// Two variables whose locations have the same identifier are the same
/// variable.
pub proof fn lemma_loc_text_injective(a: Seq<char>, b: Seq<char>)
    requires
        loc_text(a) == loc_text(b),
    ensures
        a == b,
{
    reveal_strlit("%loc_");
    assert(a =~= loc_text(a).subrange(5, 5 + a.len() as int));
    assert(b =~= loc_text(b).subrange(5, 5 + b.len() as int));
    assert(loc_text(a).len() == 5 + a.len());
    assert(loc_text(b).len() == 5 + b.len());
}

/// No location has the identifier of a result.
pub proof fn lemma_loc_is_no_result(name: Seq<char>, v: Operand)
    requires
        !(v is Constant),
    ensures
        loc_text(name) != operand_text(v),
{
    reveal_strlit("%loc_");
    reveal_strlit("loc_");
    reveal_strlit("%");
    reveal_strlit("%r");
    if loc_text(name) == operand_text(v) {
        assert(loc_text(name)[1] == 'l');
        match v {
            Operand::Register(n) => {
                assert(operand_text(v)[1] == 'r');
            },
            Operand::RegisterVar(x, k) => {
                lemma_stem_shape(x);
                lemma_numeral_digits(k as nat);
                let s = stem(x);
                let tail = s + numeral(k as nat);
                assert("%"@ + s + numeral(k as nat) =~= "%"@ + tail);
                assert(loc_text(name) =~= "%"@ + ("loc_"@ + name));
                lemma_after_percent("loc_"@ + name, tail);
                if s.len() >= 4 {
                    assert("loc_"@ =~= s.subrange(0, 4)) by {
                        assert forall|i: int| 0 <= i < 4 implies "loc_"@[i] == s[i] by {
                            assert(tail[i] == s[i]);
                            assert(("loc_"@ + name)[i] == "loc_"@[i]);
                        }
                    }
                } else {
                    let at = s.len() as int;
                    assert(tail[at] == numeral(k as nat)[0]);
                    assert(("loc_"@ + name)[at] == "loc_"@[at]);
                }
            },
            _ => {},
        }
    }
}

/// The text of each instruction of a sequence.
pub open spec fn listing(code: Seq<Instr>) -> Seq<Seq<char>> {
    Seq::new(code.len(), |i: int| instr_text(code[i]))
}

/// The program text around the given instruction lines.
pub open spec fn module_text(lines: Seq<Seq<char>>) -> Seq<char> {
    "declare void @printInt(i32)\ndefine i32 @main() {\n\t"@ + join(lines, "\n\t"@)
        + "\n\tret i32 0\n}\n"@
}

/// The text that a program compiles to.
pub open spec fn program_text(stmts: Seq<Box<Stmt>>) -> Seq<char> {
    module_text(listing(program_code(stmts, stmts.len())))
}

} // verus!
