//! The register-machine backend: the emission of instructions and the
//! assembly of the program text.
use vstd::prelude::*;
use vstd::hash_map::StringHashMap;
use vstd::hash_set::StringHashSet;
use vstd::string::StringExecFns;
use crate::ast::{
    assigned, lemma_program_size_holds, lemma_reads_only_grows, lemma_well_scoped_prefix,
    program_size, well_scoped, Expr, Opcode, Stmt,
};
use crate::error::CompileError;
use crate::text::{join_lines, push_decimal, push_index, texts};
use crate::llvm::names::{
    all_covered, all_fresh, lemma_all_concat, lemma_expr_once, lemma_grows, lemma_once_concat, written_once,
};
use crate::llvm::code::{
    counters_after, counters_at, expr_code, instr_text, lemma_expr_counters,
    lemma_expr_ignores_allocated, lemma_stmt_counters, next_read,
    ends_in_digit, listing, loc_text, module_text, operand_text, program_code, program_text,
    reserved, stem, stmt_code, within, Counters, Instr, Operand,
};

pub mod code;
pub mod machine;
pub mod names;

verus! {

broadcast use vstd::hash_map::group_hash_map_axioms;

/// Compiles a program to the text of a module whose entry point runs it. A
/// program in which an expression reads a variable that no earlier statement
/// has assigned is refused.
pub fn compile(stmts: &Vec<Box<Stmt>>) -> (text: Result<String, CompileError>)
    requires
        program_size(stmts@, stmts.len() as nat) <= usize::MAX,
    ensures
        text is Ok <==> well_scoped(stmts@, stmts.len() as nat),
        text is Ok ==> text.unwrap()@ == program_text(stmts@),
        text is Ok ==> written_once(program_code(stmts@, stmts.len() as nat)),
        text is Err ==> text == Err::<String, CompileError>(CompileError::UndeclaredVariable),
{
    let mut state = LLVMState::new();
    let ghost n = stmts.len() as nat;
    let mut i: usize = 0;
    while i < stmts.len()
        invariant
            i <= stmts.len(),
            n == stmts.len(),
            program_size(stmts@, n) <= usize::MAX,
            state.wf(),
            state.counters() == counters_at(stmts@, i as nat),
            state.counters().allocated == assigned(stmts@, i as nat),
            state.code() == program_code(stmts@, i as nat),
            state.lines().len() <= program_size(stmts@, i as nat),
            well_scoped(stmts@, i as nat),
        decreases stmts.len() - i,
    {
        proof {
            lemma_program_size_holds(stmts@, i as nat, n);
            lemma_stmt_counters(*stmts[i as int], state.counters(), state.lines().len());
            lemma_expr_counters(stmts[i as int].expr(), state.counters(), state.lines().len());
        }
        match compile_stmt(&stmts[i], &mut state) {
            Err(e) => {
                proof {
                    if well_scoped(stmts@, n) {
                        lemma_well_scoped_prefix(stmts@, (i + 1) as nat, n);
                    }
                }
                return Err(e);
            },
            Ok(()) => {},
        }
        i += 1;
    }
    Ok(state.generate_code())
}

/// The state of one emission: the instructions emitted so far and the
/// counters from which results are numbered.
pub struct LLVMState {
    register_count: usize,
    instructions: Vec<String>,
    var_locs: StringHashSet,
    var_loc_counts: StringHashMap<usize>,
    code: Ghost<Seq<Instr>>,
}

/// A value that an instruction takes or defines.
pub enum LLVMResult {
    Constant(i32),
    Register(usize),
    RegisterVar(String, usize),
}

impl View for LLVMResult {
    type V = Operand;

    open spec fn view(&self) -> Operand {
        match self {
            LLVMResult::Constant(n) => Operand::Constant(*n),
            LLVMResult::Register(r) => Operand::Register(*r),
            LLVMResult::RegisterVar(name, count) => Operand::RegisterVar(name@, *count),
        }
    }
}

/// Whether `prefix` stands at the start of `s`.
pub fn starts_with(s: &str, prefix: &str) -> (found: bool)
    ensures
        found == prefix@.is_prefix_of(s@),
{
    let n = prefix.unicode_len();
    if s.unicode_len() < n {
        return false;
    }
    let mut i: usize = 0;
    while i < n
        invariant
            i <= n,
            n == prefix@.len(),
            n <= s@.len(),
            forall|j: int| 0 <= j < i ==> s@[j] == prefix@[j],
        decreases n - i,
    {
        if s.get_char(i) != prefix.get_char(i) {
            assert(s@.subrange(0, n as int)[i as int] != prefix@[i as int]);
            return false;
        }
        i += 1;
    }
    assert(prefix@ =~= s@.subrange(0, n as int));
    true
}

/// Whether a name is empty or ends in a digit.
pub fn name_ends_in_digit(name: &str) -> (found: bool)
    ensures
        found == ends_in_digit(name@),
{
    let n = name.unicode_len();
    if n == 0 {
        return true;
    }
    let c = name.get_char(n - 1);
    c == '0' || c == '1' || c == '2' || c == '3' || c == '4' || c == '5' || c == '6' || c == '7'
        || c == '8' || c == '9'
}

/// Whether a name would read as something else in the text.
pub fn name_is_reserved(name: &str) -> (found: bool)
    ensures
        found == reserved(name@),
{
    proof {
        reveal_strlit("r");
    }
    let is_r = name.unicode_len() == 1 && name.get_char(0) == 'r';
    assert(is_r == (name@ =~= "r"@));
    is_r || starts_with(name, "loc_") || starts_with(name, "var__") || starts_with(name, "num__")
}

/// Appends the stem of a variable to `out`.
pub fn push_stem(out: &mut String, name: &str)
    ensures
        final(out)@ == old(out)@ + stem(name@),
{
    if name_ends_in_digit(name) {
        out.append("num__");
        out.append(name);
        out.append("_");
        assert(out@ =~= old(out)@ + stem(name@));
    } else if name_is_reserved(name) {
        out.append("var__");
        out.append(name);
        assert(out@ =~= old(out)@ + stem(name@));
    } else {
        out.append(name);
    }
}

/// Appends the identifier of the location of a variable to `out`.
pub fn push_loc(out: &mut String, name: &str)
    ensures
        final(out)@ == old(out)@ + loc_text(name@),
{
    out.append("%loc_");
    out.append(name);
    assert(out@ =~= old(out)@ + loc_text(name@));
}

impl LLVMResult {
    /// Appends the text of the value to `out`.
    pub fn write_to(&self, out: &mut String)
        ensures
            final(out)@ == old(out)@ + operand_text(self@),
    {
        match self {
            LLVMResult::Constant(c) => {
                push_decimal(out, *c);
            },
            LLVMResult::Register(r) => {
                out.append("%r");
                push_index(out, *r);
                assert(out@ =~= old(out)@ + operand_text(self@));
            },
            LLVMResult::RegisterVar(ident, count) => {
                out.append("%");
                push_stem(out, ident.as_str());
                push_index(out, *count);
                assert(out@ =~= old(out)@ + operand_text(self@));
            },
        }
    }

    /// The text of the value.
    pub fn to_text(&self) -> (text: String)
        ensures
            text@ == operand_text(self@),
    {
        let mut text = String::new();
        self.write_to(&mut text);
        assert(text@ =~= operand_text(self@));
        text
    }
}

impl LLVMState {
    /// The text of each instruction emitted so far, in order.
    pub closed spec fn lines(&self) -> Seq<Seq<char>> {
        texts(self.instructions@)
    }

    /// The counters of the emission.
    pub closed spec fn counters(&self) -> Counters {
        Counters {
            registers: self.register_count,
            reads: self.var_loc_counts@,
            allocated: self.var_locs@,
        }
    }

    /// The instructions emitted so far, in order.
    pub closed spec fn code(&self) -> Seq<Instr> {
        self.code@
    }

    /// The state's invariant: the lines are the text of the instructions, no
    /// counter has passed their number, no identifier is defined by two of
    /// them, and the counters hold what they define.
    pub open spec fn wf(&self) -> bool {
        &&& within(self.counters(), self.lines().len())
        &&& self.lines() == listing(self.code())
        &&& written_once(self.code())
        &&& all_covered(self.code(), self.counters())
    }

    /// A state with no instruction, no register and no variable.
    pub fn new() -> (state: LLVMState)
        ensures
            state.wf(),
            state.lines() == Seq::<Seq<char>>::empty(),
            state.code() == Seq::<Instr>::empty(),
            state.counters() == code::start(),
    {
        let state = LLVMState {
            register_count: 0,
            instructions: Vec::new(),
            var_locs: StringHashSet::new(),
            var_loc_counts: StringHashMap::new(),
            code: Ghost(Seq::empty()),
        };
        assert(state.lines() =~= Seq::<Seq<char>>::empty());
        assert(state.lines() =~= listing(state.code()));
        state
    }

    /// The program text around the instructions emitted so far.
    pub fn generate_code(&self) -> (text: String)
        ensures
            text@ == module_text(self.lines()),
    {
        let instructions = join_lines(&self.instructions, "\n\t");
        let mut text = String::from_str("declare void @printInt(i32)\ndefine i32 @main() {\n\t");
        text.append(instructions.as_str());
        text.append("\n\tret i32 0\n}\n");
        text
    }

    /// Takes the next register number.
    pub fn get_next_register_number(&mut self) -> (number: usize)
        requires
            old(self).counters().registers < usize::MAX,
        ensures
            number == old(self).counters().registers + 1,
            final(self).counters() == (Counters { registers: number, ..old(self).counters() }),
            final(self).lines() == old(self).lines(),
            final(self).code() == old(self).code(),
    {
        self.register_count = self.register_count + 1;
        self.register_count
    }

    fn push_line(&mut self, line: String, Ghost(instr): Ghost<Instr>)
        ensures
            final(self).lines() == old(self).lines().push(line@),
            final(self).code() == old(self).code().push(instr),
            final(self).counters() == old(self).counters(),
    {
        self.instructions.push(line);
        self.code = Ghost(self.code@.push(instr));
        assert(self.lines() =~= old(self).lines().push(line@));
    }

    /// Takes the number of the next read of the variable `ident`.
    pub fn next_read_number(&mut self, ident: &String) -> (number: usize)
        requires
            old(self).counters().reads.contains_key(ident@) ==> old(self).counters().reads[ident@]
                < usize::MAX,
        ensures
            number == next_read(old(self).counters().reads, ident@),
            final(self).counters() == (Counters {
                reads: old(self).counters().reads.insert(ident@, number),
                ..old(self).counters()
            }),
            final(self).lines() == old(self).lines(),
            final(self).code() == old(self).code(),
    {
        let number: usize = match self.var_loc_counts.get(ident.as_str()) {
            Some(last) => *last + 1,
            None => 0,
        };
        self.var_loc_counts.insert(ident.clone(), number);
        number
    }

    /// Records that the variable `ident` has a location.
    fn mark_allocated(&mut self, ident: &String)
        ensures
            final(self).lines() == old(self).lines(),
            final(self).code() == old(self).code(),
            final(self).counters() == (Counters {
                allocated: old(self).counters().allocated.insert(ident@),
                ..old(self).counters()
            }),
    {
        self.var_locs.insert(ident.clone());
    }

    /// Emits the allocation of the location of the variable `ident`.
    pub fn alloca(&mut self, ident: &String)
        ensures
            final(self).lines() == old(self).lines().push(instr_text(Instr::Alloca(ident@))),
            final(self).code() == old(self).code().push(Instr::Alloca(ident@)),
            final(self).counters() == old(self).counters(),
    {
        let mut line = String::new();
        push_loc(&mut line, ident.as_str());
        line.append(" = alloca i32");
        assert(line@ =~= instr_text(Instr::Alloca(ident@)));
        self.push_line(line, Ghost(Instr::Alloca(ident@)));
    }

    /// Emits the store of a value to the location of the variable `ident`.
    pub fn store(&mut self, result: LLVMResult, ident: &String)
        ensures
            final(self).lines() == old(self).lines().push(
                instr_text(Instr::Store(result@, ident@)),
            ),
            final(self).code() == old(self).code().push(Instr::Store(result@, ident@)),
            final(self).counters() == old(self).counters(),
    {
        let mut line = String::from_str("store i32 ");
        result.write_to(&mut line);
        line.append(", i32* ");
        push_loc(&mut line, ident.as_str());
        self.push_line(line, Ghost(Instr::Store(result@, ident@)));
    }

    /// Emits the call that prints a value.
    pub fn print(&mut self, result: LLVMResult)
        ensures
            final(self).lines() == old(self).lines().push(instr_text(Instr::Print(result@))),
            final(self).code() == old(self).code().push(Instr::Print(result@)),
            final(self).counters() == old(self).counters(),
    {
        let mut line = String::from_str("call void @printInt(i32 ");
        result.write_to(&mut line);
        line.append(")");
        self.push_line(line, Ghost(Instr::Print(result@)));
    }

    /// Emits the load of the location of the variable `ident` into `result`.
    pub fn load(&mut self, result: &LLVMResult, ident: &String)
        ensures
            final(self).lines() == old(self).lines().push(
                instr_text(Instr::Load(result@, ident@)),
            ),
            final(self).code() == old(self).code().push(Instr::Load(result@, ident@)),
            final(self).counters() == old(self).counters(),
    {
        let mut line = result.to_text();
        line.append(" = load i32, i32* ");
        push_loc(&mut line, ident.as_str());
        self.push_line(line, Ghost(Instr::Load(result@, ident@)));
    }

    /// Emits the operation that defines `result` as `opcode` on `l` and `r`.
    pub fn arithmetic(
        &mut self,
        result: &LLVMResult,
        opcode: &Opcode,
        l: &LLVMResult,
        r: &LLVMResult,
    )
        ensures
            final(self).lines() == old(self).lines().push(
                instr_text(Instr::Arithmetic(result@, *opcode, l@, r@)),
            ),
            final(self).code() == old(self).code().push(Instr::Arithmetic(result@, *opcode, l@, r@)),
            final(self).counters() == old(self).counters(),
    {
        let mut line = result.to_text();
        line.append(" = ");
        line.append(opcode.to_text().as_str());
        line.append(" i32 ");
        l.write_to(&mut line);
        line.append(", ");
        r.write_to(&mut line);
        self.push_line(line, Ghost(Instr::Arithmetic(result@, *opcode, l@, r@)));
    }
}

/// The text of a sequence of instructions followed by that of another.
pub proof fn lemma_listing_concat(a: Seq<Instr>, b: Seq<Instr>)
    ensures
        listing(a + b) == listing(a) + listing(b),
{
    assert(listing(a + b) =~= listing(a) + listing(b));
}

/// Whether every variable that the expression reads has a location.
pub fn reads_allocated(expr: &Expr, state: &LLVMState) -> (known: bool)
    ensures
        known == expr.reads_only(state.counters().allocated),
    decreases *expr,
{
    match expr {
        Expr::Number(_) => true,
        Expr::Ident(ident) => state.var_locs.contains(ident.as_str()),
        Expr::Op(l_expr, _, r_expr) => reads_allocated(l_expr, state) && reads_allocated(
            r_expr,
            state,
        ),
    }
}

/// Emits the instructions of an expression and returns the value that stands
/// for its result. Each result gets an identifier that no instruction
/// before has defined.
pub fn compile_expr(expr: &Expr, state: &mut LLVMState) -> (result: LLVMResult)
    requires
        old(state).wf(),
        old(state).lines().len() + expr.size() <= usize::MAX,
        expr.reads_only(old(state).counters().allocated),
    ensures
        final(state).wf(),
        result@ == expr_code(*expr, old(state).counters()).result,
        final(state).counters() == expr_code(*expr, old(state).counters()).counters,
        final(state).code() == old(state).code() + expr_code(*expr, old(state).counters()).code,
        final(state).lines() == old(state).lines() + listing(
            expr_code(*expr, old(state).counters()).code,
        ),
    decreases *expr,
{
    let ghost c = old(state).counters();
    let ghost issued = old(state).lines().len();
    let ghost out = expr_code(*expr, c);
    let result = match expr {
        Expr::Number(n) => {
            assert(state.code() =~= old(state).code() + out.code);
            LLVMResult::Constant(*n)
        },
        Expr::Ident(ident) => {
            let count: usize = state.next_read_number(ident);
            let result = LLVMResult::RegisterVar(ident.clone(), count);
            state.load(&result, ident);
            assert(state.code() =~= old(state).code() + out.code);
            assert(state.lines() =~= listing(state.code()));
            result
        },
        Expr::Op(l_expr, opcode, r_expr) => {
            proof {
                lemma_expr_counters(**l_expr, c, issued);
                lemma_expr_counters(
                    **r_expr,
                    expr_code(**l_expr, c).counters,
                    issued + expr_code(**l_expr, c).code.len(),
                );
            }
            let l = compile_expr(l_expr, state);
            let r = compile_expr(r_expr, state);
            let result = LLVMResult::Register(state.get_next_register_number());
            state.arithmetic(&result, opcode, &l, &r);
            assert(state.code() =~= old(state).code() + out.code);
            assert(state.lines() =~= listing(state.code()));
            result
        },
    };
    proof {
        lemma_expr_counters(*expr, c, issued);
        lemma_expr_once(*expr, c, issued);
        lemma_once_concat(old(state).code(), out.code, c);
        lemma_grows(old(state).code(), c, out.counters);
        lemma_all_concat(old(state).code(), out.code, out.counters);
        lemma_listing_concat(old(state).code(), out.code);
    }
    result
}

/// Emits the instructions of a statement. A statement that reads a variable
/// without a location is refused, and nothing is emitted for it.
pub fn compile_stmt(stmt: &Stmt, state: &mut LLVMState) -> (done: Result<(), CompileError>)
    requires
        old(state).wf(),
        old(state).lines().len() + stmt.size() <= usize::MAX,
    ensures
        done is Ok <==> stmt.expr().reads_only(old(state).counters().allocated),
        done is Err ==> done == Err::<(), CompileError>(CompileError::UndeclaredVariable)
            && final(state).lines() == old(state).lines() && final(state).code() == old(
            state,
        ).code() && final(state).counters() == old(state).counters(),
        done is Ok ==> final(state).wf() && final(state).counters() == counters_after(
            *stmt,
            old(state).counters(),
        ) && final(state).code() == old(state).code() + stmt_code(*stmt, old(state).counters())
            && final(state).lines() == old(state).lines() + listing(
            stmt_code(*stmt, old(state).counters()),
        ),
{
    let ghost c = old(state).counters();
    let ghost issued = old(state).lines().len();
    let ghost before = old(state).code();
    match stmt {
        Stmt::SAss(ident, expr) => {
            if !reads_allocated(expr, state) {
                return Err(CompileError::UndeclaredVariable);
            }
            let first = !state.var_locs.contains(ident.as_str());
            let ghost head = if first {
                seq![Instr::Alloca(ident@)]
            } else {
                Seq::<Instr>::empty()
            };
            let ghost marked = Counters { allocated: c.allocated.insert(ident@), ..c };
            if first {
                state.alloca(ident);
                state.mark_allocated(ident);
            }
            proof {
                assert(marked.allocated =~= state.counters().allocated);
                assert(state.code() =~= before + head);
                assert(state.lines() =~= listing(state.code()));
                assert(written_once(head));
                assert(all_fresh(head, c));
                assert(all_covered(head, marked));
                lemma_once_concat(before, head, c);
                lemma_grows(before, c, marked);
                lemma_all_concat(before, head, marked);
                lemma_listing_concat(before, head);
                lemma_expr_counters(**expr, c, issued + head.len());
                lemma_expr_ignores_allocated(**expr, c, marked.allocated);
                lemma_reads_only_grows(**expr, c.allocated, marked.allocated);
            }
            let result = compile_expr(expr, state);
            let ghost last = seq![Instr::Store(result@, ident@)];
            let ghost mid = state.code();
            let ghost after = state.counters();
            state.store(result, ident);
            proof {
                let body = expr_code(**expr, c);
                assert(state.code() =~= mid + last);
                assert(state.code() =~= before + (head + body.code + last));
                assert(state.lines() =~= listing(state.code()));
                assert(written_once(last));
                assert(all_fresh(last, after));
                assert(all_covered(last, after));
                lemma_once_concat(mid, last, after);
                lemma_all_concat(mid, last, after);
                lemma_listing_concat(before, head + body.code + last);
            }
            Ok(())
        },
        Stmt::SExpr(expr) => {
            if !reads_allocated(expr, state) {
                return Err(CompileError::UndeclaredVariable);
            }
            proof {
                lemma_expr_counters(**expr, c, issued);
            }
            let result = compile_expr(expr, state);
            let ghost last = seq![Instr::Print(result@)];
            let ghost mid = state.code();
            let ghost after = state.counters();
            state.print(result);
            proof {
                let body = expr_code(**expr, c);
                assert(state.code() =~= mid + last);
                assert(state.code() =~= before + (body.code + last));
                assert(state.lines() =~= listing(state.code()));
                assert(written_once(last));
                assert(all_fresh(last, after));
                assert(all_covered(last, after));
                lemma_once_concat(mid, last, after);
                lemma_all_concat(mid, last, after);
                lemma_listing_concat(before, body.code + last);
            }
            Ok(())
        },
    }
}

} // verus!
