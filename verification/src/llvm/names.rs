//! The identifiers that the instructions of a program define: each is
//! defined once.
use vstd::prelude::*;
use crate::ast::{lemma_program_size_holds, program_size, Expr, Stmt};
use crate::llvm::code::{
    counters_after, counters_at, expr_code, lemma_expr_counters, lemma_loc_is_no_result,
    lemma_loc_text_injective, lemma_operand_text_injective, lemma_stmt_counters, loc_text,
    numbered, operand_text, program_code, stmt_code, within, Counters, Instr,
};
use crate::llvm::machine::lemma_expr_numbers;

verus! {

/// The identifier that an instruction defines, where it defines one: an
/// allocation the location, a load and an operation their result.
pub open spec fn defines(i: Instr) -> Option<Seq<char>> {
    match i {
        Instr::Alloca(name) => Some(loc_text(name)),
        Instr::Load(result, _) => Some(operand_text(result)),
        Instr::Arithmetic(result, _, _, _) => Some(operand_text(result)),
        _ => None,
    }
}

/// Two instructions define the same identifier.
pub open spec fn same_def(a: Instr, b: Instr) -> bool {
    defines(a) is Some && defines(a) == defines(b)
}

/// No identifier is defined by two instructions of the sequence.
pub open spec fn written_once(code: Seq<Instr>) -> bool {
    forall|i: int, j: int|
        0 <= i < j < code.len() ==> !same_def(#[trigger] code[i], #[trigger] code[j])
}

/// What the instruction defines, the counters hold: the location as
/// allocated, the result as numbered.
pub open spec fn covered(i: Instr, c: Counters) -> bool {
    match i {
        Instr::Alloca(name) => c.allocated.contains(name),
        Instr::Load(result, _) => numbered(result, c),
        Instr::Arithmetic(result, _, _, _) => numbered(result, c),
        _ => true,
    }
}

/// What the instruction defines, the counters do not hold yet.
pub open spec fn fresh(i: Instr, c: Counters) -> bool {
    match i {
        Instr::Alloca(name) => !c.allocated.contains(name),
        Instr::Load(result, _) => !(result is Constant) && !numbered(result, c),
        Instr::Arithmetic(result, _, _, _) => !(result is Constant) && !numbered(result, c),
        _ => true,
    }
}

/// The counters hold what each instruction of the sequence defines.
pub open spec fn all_covered(code: Seq<Instr>, c: Counters) -> bool {
    forall|k: int| 0 <= k < code.len() ==> covered(#[trigger] code[k], c)
}

/// The counters hold nothing of what the instructions of the sequence
/// define.
pub open spec fn all_fresh(code: Seq<Instr>, c: Counters) -> bool {
    forall|k: int| 0 <= k < code.len() ==> fresh(#[trigger] code[k], c)
}

/// The second counters hold whatever the first hold.
pub open spec fn grows(c: Counters, d: Counters) -> bool {
    &&& forall|v| numbered(v, c) ==> numbered(v, d)
    &&& forall|name: Seq<char>| c.allocated.contains(name) ==> d.allocated.contains(name)
}

/// An instruction that defines what the counters hold and one that defines
/// what they do not hold define different identifiers.
pub proof fn lemma_not_same(a: Instr, b: Instr, c: Counters)
    requires
        covered(a, c),
        fresh(b, c),
    ensures
        !same_def(a, b),
        !same_def(b, a),
{
    if same_def(a, b) || same_def(b, a) {
        match (a, b) {
            (Instr::Alloca(x), Instr::Alloca(y)) => {
                lemma_loc_text_injective(x, y);
            },
            (Instr::Alloca(x), Instr::Load(r, _)) => {
                lemma_loc_is_no_result(x, r);
            },
            (Instr::Alloca(x), Instr::Arithmetic(r, _, _, _)) => {
                lemma_loc_is_no_result(x, r);
            },
            (Instr::Load(r, _), Instr::Alloca(y)) => {
                lemma_loc_is_no_result(y, r);
            },
            (Instr::Arithmetic(r, _, _, _), Instr::Alloca(y)) => {
                lemma_loc_is_no_result(y, r);
            },
            (Instr::Load(r, _), Instr::Load(s, _)) => {
                lemma_operand_text_injective(r, s);
            },
            (Instr::Load(r, _), Instr::Arithmetic(s, _, _, _)) => {
                lemma_operand_text_injective(r, s);
            },
            (Instr::Arithmetic(r, _, _, _), Instr::Load(s, _)) => {
                lemma_operand_text_injective(r, s);
            },
            (Instr::Arithmetic(r, _, _, _), Instr::Arithmetic(s, _, _, _)) => {
                lemma_operand_text_injective(r, s);
            },
            _ => {},
        }
    }
}

/// Two sequences in which no identifier is defined twice, the first
/// defining what the counters hold and the second what they do not, define
/// no identifier twice when put in a row.
pub proof fn lemma_once_concat(a: Seq<Instr>, b: Seq<Instr>, c: Counters)
    requires
        written_once(a),
        written_once(b),
        all_covered(a, c),
        all_fresh(b, c),
    ensures
        written_once(a + b),
{
    let code = a + b;
    assert forall|i: int, j: int| 0 <= i < j < code.len() implies !same_def(
        #[trigger] code[i],
        #[trigger] code[j],
    ) by {
        if j < a.len() {
            assert(code[i] == a[i] && code[j] == a[j]);
        } else if i >= a.len() {
            assert(code[i] == b[i - a.len()] && code[j] == b[j - a.len()]);
        } else {
            assert(code[i] == a[i] && code[j] == b[j - a.len()]);
            lemma_not_same(a[i], b[j - a.len()], c);
        }
    }
}

/// What counters hold, counters that have grown from them hold; what the
/// grown ones do not hold, the first do not hold either.
pub proof fn lemma_grows(code: Seq<Instr>, c: Counters, d: Counters)
    requires
        grows(c, d),
    ensures
        all_covered(code, c) ==> all_covered(code, d),
        all_fresh(code, d) ==> all_fresh(code, c),
{
    if all_covered(code, c) {
        assert forall|k: int| 0 <= k < code.len() implies covered(#[trigger] code[k], d) by {
            assert(covered(code[k], c));
        }
    }
    if all_fresh(code, d) {
        assert forall|k: int| 0 <= k < code.len() implies fresh(#[trigger] code[k], c) by {
            assert(fresh(code[k], d));
        }
    }
}

/// What holds of each instruction of two sequences holds of each
/// instruction of the two in a row.
pub proof fn lemma_all_concat(a: Seq<Instr>, b: Seq<Instr>, c: Counters)
    ensures
        all_covered(a, c) && all_covered(b, c) ==> all_covered(a + b, c),
        all_fresh(a, c) && all_fresh(b, c) ==> all_fresh(a + b, c),
{
    let code = a + b;
    if all_covered(a, c) && all_covered(b, c) {
        assert forall|k: int| 0 <= k < code.len() implies covered(#[trigger] code[k], c) by {
            if k < a.len() {
                assert(code[k] == a[k]);
            } else {
                assert(code[k] == b[k - a.len()]);
            }
        }
    }
    if all_fresh(a, c) && all_fresh(b, c) {
        assert forall|k: int| 0 <= k < code.len() implies fresh(#[trigger] code[k], c) by {
            if k < a.len() {
                assert(code[k] == a[k]);
            } else {
                assert(code[k] == b[k - a.len()]);
            }
        }
    }
}

/// The instructions of an expression define each identifier once, and
/// define what the counters did not hold before and hold after.
pub proof fn lemma_expr_once(e: Expr, c: Counters, issued: nat)
    requires
        within(c, issued),
        issued + e.size() <= usize::MAX,
    ensures
        written_once(expr_code(e, c).code),
        all_fresh(expr_code(e, c).code, c),
        all_covered(expr_code(e, c).code, expr_code(e, c).counters),
        grows(c, expr_code(e, c).counters),
    decreases e,
{
    let out = expr_code(e, c);
    lemma_expr_numbers(e, c, issued);
    lemma_expr_counters(e, c, issued);
    match e {
        Expr::Number(_) => {},
        Expr::Ident(_) => {},
        Expr::Op(l, op, r) => {
            let left = expr_code(*l, c);
            let right = expr_code(*r, left.counters);
            let last = seq![Instr::Arithmetic(out.result, op, left.result, right.result)];
            lemma_expr_counters(*l, c, issued);
            lemma_expr_counters(*r, left.counters, issued + left.code.len());
            lemma_expr_once(*l, c, issued);
            lemma_expr_once(*r, left.counters, issued + left.code.len());
            lemma_once_concat(left.code, right.code, left.counters);
            let both = left.code + right.code;
            lemma_grows(left.code, left.counters, right.counters);
            lemma_grows(right.code, c, left.counters);
            lemma_all_concat(left.code, right.code, right.counters);
            lemma_all_concat(left.code, right.code, c);
            assert(fresh(last[0], right.counters));
            assert(covered(last[0], out.counters));
            assert(grows(right.counters, out.counters));
            lemma_once_concat(both, last, right.counters);
            lemma_grows(both, right.counters, out.counters);
            lemma_grows(last, c, right.counters);
            lemma_all_concat(both, last, out.counters);
            lemma_all_concat(both, last, c);
        },
    }
}

/// The instructions of a statement define each identifier once, and define
/// what the counters did not hold before and hold after.
pub proof fn lemma_stmt_once(s: Stmt, c: Counters, issued: nat)
    requires
        within(c, issued),
        issued + s.size() <= usize::MAX,
    ensures
        written_once(stmt_code(s, c)),
        all_fresh(stmt_code(s, c), c),
        all_covered(stmt_code(s, c), counters_after(s, c)),
        grows(c, counters_after(s, c)),
{
    let e = s.expr();
    let body = expr_code(e, c);
    lemma_expr_once(e, c, issued);
    lemma_expr_counters(e, c, issued);
    match s {
        Stmt::SAss(name, _) => {
            let head = if c.allocated.contains(name@) {
                Seq::<Instr>::empty()
            } else {
                seq![Instr::Alloca(name@)]
            };
            let last = seq![Instr::Store(body.result, name@)];
            let marked = Counters { allocated: c.allocated.insert(name@), ..c };
            let after = counters_after(s, c);
            assert(grows(c, marked));
            assert forall|v| numbered(v, marked) implies numbered(v, after) by {
                assert(numbered(v, c));
                assert(numbered(v, body.counters));
            }
            assert(grows(marked, after));
            assert forall|v| numbered(v, body.counters) implies numbered(v, after) by {}
            assert(grows(body.counters, after));
            assert(all_fresh(body.code, marked)) by {
                assert forall|k: int| 0 <= k < body.code.len() implies fresh(
                    #[trigger] body.code[k],
                    marked,
                ) by {
                    assert(fresh(body.code[k], c));
                    assert(!(body.code[k] is Alloca)) by {
                        lemma_expr_allocates_nothing(e, c, k);
                    }
                }
            }
            lemma_once_concat(head, body.code, marked);
            lemma_grows(head, marked, after);
            lemma_grows(body.code, body.counters, after);
            lemma_all_concat(head, body.code, after);
            lemma_all_concat(head, body.code, c);
            lemma_once_concat(head + body.code, last, after);
            lemma_all_concat(head + body.code, last, after);
            lemma_all_concat(head + body.code, last, c);
        },
        Stmt::SExpr(_) => {
            let last = seq![Instr::Print(body.result)];
            lemma_once_concat(body.code, last, body.counters);
            lemma_all_concat(body.code, last, body.counters);
            lemma_all_concat(body.code, last, c);
        },
    }
}

/// The instructions of an expression allocate no location.
pub proof fn lemma_expr_allocates_nothing(e: Expr, c: Counters, k: int)
    requires
        0 <= k < expr_code(e, c).code.len(),
    ensures
        !(expr_code(e, c).code[k] is Alloca),
    decreases e,
{
    match e {
        Expr::Number(_) => {},
        Expr::Ident(_) => {},
        Expr::Op(l, _, r) => {
            let left = expr_code(*l, c);
            let right = expr_code(*r, left.counters);
            if k < left.code.len() {
                lemma_expr_allocates_nothing(*l, c, k);
            } else if k < left.code.len() + right.code.len() {
                lemma_expr_allocates_nothing(*r, left.counters, k - left.code.len());
            }
        },
    }
}

/// Every identifier in the instructions of a program is defined once: no
/// two of its allocations, loads and operations define the same location or
/// result.
pub proof fn lemma_program_once(stmts: Seq<Box<Stmt>>, n: nat)
    requires
        n <= stmts.len(),
        program_size(stmts, n) <= usize::MAX,
    ensures
        written_once(program_code(stmts, n)),
        all_covered(program_code(stmts, n), counters_at(stmts, n)),
        program_code(stmts, n).len() <= program_size(stmts, n),
        within(counters_at(stmts, n), program_code(stmts, n).len()),
    decreases n,
{
    if n > 0 {
        let before = (n - 1) as nat;
        let s = *stmts[n - 1];
        let c = counters_at(stmts, before);
        let code = program_code(stmts, before);
        lemma_program_size_holds(stmts, before, n);
        lemma_program_once(stmts, before);
        lemma_stmt_counters(s, c, code.len());
        lemma_stmt_once(s, c, code.len());
        lemma_once_concat(code, stmt_code(s, c), c);
        lemma_grows(code, c, counters_after(s, c));
        lemma_all_concat(code, stmt_code(s, c), counters_after(s, c));
    }
}

} // verus!
