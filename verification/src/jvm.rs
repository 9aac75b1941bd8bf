//! The stack-machine backend: the analysis of stack needs, the emission of
//! instructions and the assembly of the program text.
use vstd::prelude::*;
use vstd::hash_map::StringHashMap;
use vstd::string::StringExecFns;
use crate::ast::{
    assigned, lemma_program_size_holds, lemma_well_scoped_prefix, program_size, well_scoped, Expr,
    Opcode, Stmt,
};
use crate::error::CompileError;
use crate::text::{join_lines, push_decimal, push_index, texts};
use crate::jvm::code::{
    arith_text, assembly, assign, const_text, depth, expr_code, instr_text, listing, load_text,
    next_slot, program_code, program_text, slots_after, slots_at, slots_wf, stack_limit,
    stmt_code, stmt_limit, store_text, Instr, Slots,
};

pub mod code;
pub mod machine;
pub mod stack;

verus! {

broadcast use vstd::hash_map::group_hash_map_axioms;

/// Compiles a program to the assembly text of a class `class_name` whose main
/// method runs it. A program in which an expression reads a variable that no
/// earlier statement has assigned is refused.
pub fn compile(stmts: &Vec<Box<Stmt>>, class_name: &str) -> (text: Result<String, CompileError>)
    requires
        program_size(stmts@, stmts.len() as nat) <= usize::MAX,
    ensures
        text is Ok <==> well_scoped(stmts@, stmts.len() as nat),
        text is Ok ==> text.unwrap()@ == program_text(stmts@, class_name@),
        text is Err ==> text == Err::<String, CompileError>(CompileError::UndeclaredVariable),
{
    let mut state = JVMState::new();
    let mut limit_stack: usize = 0;
    let ghost n = stmts.len() as nat;
    proof {
        assert forall|i: int| 0 <= i < stmts.len() implies (#[trigger] stmts[i]).size()
            <= usize::MAX by {
            lemma_program_size_holds(stmts@, i as nat, n);
        }
    }
    let tagged_stmts = tag_stmts(stmts);
    let mut i: usize = 0;
    while i < tagged_stmts.len()
        invariant
            i <= stmts.len(),
            n == stmts.len(),
            tagged_stmts.len() == stmts.len(),
            program_size(stmts@, n) <= usize::MAX,
            forall|k: int|
                0 <= k < stmts.len() ==> (#[trigger] tagged_stmts[k]).wf()
                    && tagged_stmts[k].source() == *stmts[k],
            state.wf(),
            state.slots() == slots_at(stmts@, i as nat),
            state.slots().len() <= i,
            state.lines() == listing(program_code(stmts@, i as nat)),
            limit_stack == stack_limit(stmts@, i as nat),
            state.slots().dom() == assigned(stmts@, i as nat),
            well_scoped(stmts@, i as nat),
        decreases stmts.len() - i,
    {
        let tagged_stmt = &tagged_stmts[i];
        proof {
            lemma_program_size_holds(stmts@, i as nat, n);
            lemma_depth_le_size(stmts[i as int].expr());
            tagged_stmt.lemma_limit_is_stmt_limit();
        }
        let limit = tagged_stmt.get_stmt_stack_limit();
        if limit > limit_stack {
            limit_stack = limit;
        }
        match compile_tagged_stmt(tagged_stmt, &mut state) {
            Err(e) => {
                proof {
                    if well_scoped(stmts@, n) {
                        lemma_well_scoped_prefix(stmts@, (i + 1) as nat, n);
                    }
                }
                return Err(e);
            },
            Ok(()) => {},
        }
        proof {
            lemma_listing_concat(
                program_code(stmts@, i as nat),
                stmt_code(*stmts[i as int], slots_at(stmts@, i as nat)),
            );
            assert(state.slots().dom() =~= assigned(stmts@, (i + 1) as nat));
        }
        i += 1;
    }
    Ok(state.generate_code(class_name, limit_stack))
}

/// The state of one emission: the instructions emitted so far and the slot of
/// each variable assigned so far.
pub struct JVMState {
    instructions: Vec<String>,
    var_index_map: StringHashMap<usize>,
}

impl JVMState {
    /// The text of each instruction emitted so far, in order.
    pub closed spec fn lines(&self) -> Seq<Seq<char>> {
        texts(self.instructions@)
    }

    /// The slot of each variable assigned so far.
    pub closed spec fn slots(&self) -> Slots {
        self.var_index_map@
    }

    /// The state's invariant: that of its slot table.
    pub open spec fn wf(&self) -> bool {
        slots_wf(self.slots())
    }

    /// A state with no instruction and no variable.
    pub fn new() -> (state: JVMState)
        ensures
            state.wf(),
            state.lines() == Seq::<Seq<char>>::empty(),
            state.slots() == Map::<Seq<char>, usize>::empty(),
    {
        let state = JVMState { instructions: Vec::new(), var_index_map: StringHashMap::new() };
        assert(state.lines() =~= Seq::<Seq<char>>::empty());
        state
    }

    /// The program text around the instructions emitted so far, for a class
    /// `class_name` that declares `limit_stack` and one local more than the
    /// variables assigned.
    pub fn generate_code(&self, class_name: &str, limit_stack: usize) -> (text: String)
        requires
            self.wf(),
        ensures
            text@ == assembly(
                class_name@,
                limit_stack as nat,
                next_slot(self.slots()),
                self.lines(),
            ),
    {
        let instructions = join_lines(&self.instructions, "\n\t");
        let limit_locals: usize = self.var_index_map.len() + 1;
        let mut text = String::from_str(".class public ");
        text.append(class_name);
        text.append("\n");
        text.append(".super  java/lang/Object\n");
        text.append(
            ".method public <init>()V\n\taload_0\n\tinvokespecial java/lang/Object/<init>()V\n\treturn\n.end method\n",
        );
        text.append(".method public static main([Ljava/lang/String;)V\n");
        text.append(".limit stack ");
        push_index(&mut text, limit_stack);
        text.append("\n");
        text.append(".limit locals ");
        push_index(&mut text, limit_locals);
        text.append("\n");
        text.append(instructions.as_str());
        text.append("\n\treturn\n.end method\n");
        text
    }

    fn push_line(&mut self, line: String)
        ensures
            final(self).lines() == old(self).lines().push(line@),
            final(self).slots() == old(self).slots(),
    {
        self.instructions.push(line);
        assert(self.lines() =~= old(self).lines().push(line@));
    }

    /// Emits the instruction that pushes `n`.
    pub fn push_constant(&mut self, n: i32)
        ensures
            final(self).lines() == old(self).lines().push(const_text(n)),
            final(self).slots() == old(self).slots(),
    {
        let mut line: String;
        if n == -1 {
            line = String::from_str("iconst_m1");
        } else {
            if 1 <= n && n <= 5 {
                line = String::from_str("iconst_");
            } else if -128 <= n && n <= 127 {
                line = String::from_str("bipush ");
            } else if -32768 <= n && n <= 32767 {
                line = String::from_str("sipush ");
            } else {
                line = String::from_str("ldc ");
            }
            push_decimal(&mut line, n);
        }
        self.push_line(line);
    }

    /// Emits the instruction that pushes a reference to the output stream.
    pub fn push_get_static_all_print(&mut self)
        ensures
            final(self).lines() == old(self).lines().push(instr_text(Instr::GetPrinter)),
            final(self).slots() == old(self).slots(),
    {
        self.push_line(String::from_str("getstatic  java/lang/System/out Ljava/io/PrintStream;"));
    }

    /// Emits the instruction that prints the value on top of the stack.
    pub fn push_call_print(&mut self)
        ensures
            final(self).lines() == old(self).lines().push(instr_text(Instr::CallPrint)),
            final(self).slots() == old(self).slots(),
    {
        self.push_line(String::from_str("invokevirtual java/io/PrintStream/println(I)V"));
    }

    /// Emits the instruction of an operator.
    pub fn push_opcode(&mut self, opcode: &Opcode)
        ensures
            final(self).lines() == old(self).lines().push(arith_text(*opcode)),
            final(self).slots() == old(self).slots(),
    {
        let line = match *opcode {
            Opcode::Add => String::from_str("iadd"),
            Opcode::Sub => String::from_str("isub"),
            Opcode::Mul => String::from_str("imul"),
            Opcode::Div => String::from_str("idiv"),
        };
        self.push_line(line);
    }

    /// Whether the variable `ident` has a slot.
    pub fn has_slot(&self, ident: &String) -> (known: bool)
        ensures
            known == self.slots().contains_key(ident@),
    {
        self.var_index_map.contains_key(ident.as_str())
    }

    /// Emits the instruction that pushes the value of the variable `ident`,
    /// which has a slot.
    pub fn push_load(&mut self, ident: &String)
        requires
            old(self).slots().contains_key(ident@),
        ensures
            final(self).lines() == old(self).lines().push(load_text(old(self).slots()[ident@])),
            final(self).slots() == old(self).slots(),
    {
        let found = self.var_index_map.get(ident.as_str());
        let i: usize = *found.unwrap();
        let mut line = if i <= 3 {
            String::from_str("iload_")
        } else {
            String::from_str("iload ")
        };
        push_index(&mut line, i);
        self.push_line(line);
    }

    /// Emits the instruction that pops a value into the slot of the variable
    /// `ident`, which gets the next free slot where it has none.
    pub fn push_store(&mut self, ident: &String)
        requires
            old(self).wf(),
            next_slot(assign(old(self).slots(), ident@)) <= usize::MAX,
        ensures
            final(self).wf(),
            final(self).slots() == assign(old(self).slots(), ident@),
            final(self).lines() == old(self).lines().push(
                store_text(final(self).slots()[ident@]),
            ),
    {
        let new_free_slot = self.get_next_free_var_slot();
        let i: usize = match self.var_index_map.get(ident.as_str()) {
            Some(slot) => *slot,
            None => {
                self.var_index_map.insert(ident.clone(), new_free_slot);
                new_free_slot
            },
        };
        let mut line = if i <= 3 {
            String::from_str("istore_")
        } else {
            String::from_str("istore ")
        };
        push_index(&mut line, i);
        self.push_line(line);
    }

    /// Emits the instruction that exchanges the two topmost values.
    pub fn push_swap(&mut self)
        ensures
            final(self).lines() == old(self).lines().push(instr_text(Instr::Swap)),
            final(self).slots() == old(self).slots(),
    {
        self.push_line(String::from_str("swap"));
    }

    /// The slot that the next new variable gets.
    pub fn get_next_free_var_slot(&self) -> (slot: usize)
        requires
            self.wf(),
        ensures
            slot == next_slot(self.slots()),
    {
        self.var_index_map.len() + 1
    }
}

/// A statement whose expression carries its stack needs.
pub enum TaggedStmt<'a> {
    SAss(&'a String, Box<TaggedExpr<'a>>),
    SExpr(Box<TaggedExpr<'a>>),
}

/// An expression in which each operation carries its stack need. It mirrors
/// an expression of the program and borrows names and operators from it.
pub enum TaggedExpr<'a> {
    Number(i32),
    Ident(&'a String),
    Op(Box<TaggedExpr<'a>>, &'a Opcode, Box<TaggedExpr<'a>>, usize),
}

impl<'a> TaggedExpr<'a> {
    /// The expression that this one mirrors.
    pub open spec fn source(self) -> Expr
        decreases self,
    {
        match self {
            TaggedExpr::Number(n) => Expr::Number(n),
            TaggedExpr::Ident(name) => Expr::Ident(*name),
            TaggedExpr::Op(l, op, r, _) => Expr::Op(
                Box::new(l.source()),
                *op,
                Box::new(r.source()),
            ),
        }
    }

    /// The stack need that the node carries: 1 at a leaf.
    pub open spec fn limit(self) -> nat {
        match self {
            TaggedExpr::Number(_) => 1,
            TaggedExpr::Ident(_) => 1,
            TaggedExpr::Op(_, _, _, stack_size) => stack_size as nat,
        }
    }

    /// Each operation carries the stack need of the expression it mirrors.
    pub open spec fn wf(self) -> bool
        decreases self,
    {
        match self {
            TaggedExpr::Number(_) => true,
            TaggedExpr::Ident(_) => true,
            TaggedExpr::Op(l, _, r, stack_size) => l.wf() && r.wf() && stack_size == depth(
                self.source(),
            ),
        }
    }

    /// A well-formed node carries the stack need of its source.
    pub proof fn lemma_limit_is_depth(self)
        requires
            self.wf(),
        ensures
            self.limit() == depth(self.source()),
    {
    }

    /// The stack need that the node carries.
    pub fn get_expr_stack_limit(&self) -> (stack_size: usize)
        ensures
            stack_size == self.limit(),
    {
        match *self {
            TaggedExpr::Number(_) | TaggedExpr::Ident(_) => 1,
            TaggedExpr::Op(_, _, _, stack_size) => stack_size,
        }
    }
}

impl<'a> TaggedStmt<'a> {
    /// The statement that this one mirrors.
    pub open spec fn source(self) -> Stmt {
        match self {
            TaggedStmt::SAss(name, e) => Stmt::SAss(*name, Box::new(e.source())),
            TaggedStmt::SExpr(e) => Stmt::SExpr(Box::new(e.source())),
        }
    }

    /// The tagged expression of the statement.
    pub open spec fn expr(self) -> TaggedExpr<'a> {
        match self {
            TaggedStmt::SAss(_, e) => *e,
            TaggedStmt::SExpr(e) => *e,
        }
    }

    /// The expression of the statement is well formed.
    pub open spec fn wf(self) -> bool {
        self.expr().wf()
    }

    /// The stack need that the statement carries: one more than its
    /// expression's for an assignment, two more for a print.
    pub open spec fn limit(self) -> nat {
        match self {
            TaggedStmt::SAss(_, e) => e.limit() + 1,
            TaggedStmt::SExpr(e) => e.limit() + 2,
        }
    }

    /// A well-formed statement carries the stack need of its source.
    pub proof fn lemma_limit_is_stmt_limit(self)
        requires
            self.wf(),
        ensures
            self.limit() == stmt_limit(self.source()),
    {
        self.expr().lemma_limit_is_depth();
    }

    /// The stack need that the statement carries.
    pub fn get_stmt_stack_limit(&self) -> (limit: usize)
        requires
            self.limit() <= usize::MAX,
        ensures
            limit == self.limit(),
    {
        match self {
            TaggedStmt::SAss(_, tagged_expr) => tagged_expr.get_expr_stack_limit() + 1,
            TaggedStmt::SExpr(tagged_expr) => tagged_expr.get_expr_stack_limit() + 2,
        }
    }
}

/// The stack need of an expression is at most the number of its nodes.
pub proof fn lemma_depth_le_size(e: Expr)
    ensures
        1 <= depth(e) <= e.size(),
    decreases e,
{
    match e {
        Expr::Number(_) => {},
        Expr::Ident(_) => {},
        Expr::Op(l, _, r) => {
            lemma_depth_le_size(*l);
            lemma_depth_le_size(*r);
        },
    }
}

/// Tags each operation of an expression with its stack need.
pub fn tag_expr<'a>(expr: &'a Expr) -> (tagged: TaggedExpr<'a>)
    requires
        expr.size() <= usize::MAX,
    ensures
        tagged.wf(),
        tagged.source() == *expr,
        tagged.limit() == depth(*expr),
    decreases *expr,
{
    match expr {
        Expr::Number(n) => TaggedExpr::Number(*n),
        Expr::Ident(id) => TaggedExpr::Ident(id),
        Expr::Op(l_expr, opcode, r_expr) => {
            let tagged_l_expr = tag_expr(l_expr);
            let tagged_r_expr = tag_expr(r_expr);
            proof {
                tagged_l_expr.lemma_limit_is_depth();
                tagged_r_expr.lemma_limit_is_depth();
                lemma_depth_le_size(**l_expr);
                lemma_depth_le_size(**r_expr);
            }
            let l_limit = tagged_l_expr.get_expr_stack_limit();
            let r_limit = tagged_r_expr.get_expr_stack_limit();
            let stack_limit: usize = if l_limit <= r_limit {
                l_limit + 1
            } else {
                r_limit + 1
            };
            TaggedExpr::Op(Box::new(tagged_l_expr), opcode, Box::new(tagged_r_expr), stack_limit)
        },
    }
}

/// Tags the expression of a statement.
pub fn tag_stmt<'a>(stmt: &'a Stmt) -> (tagged: TaggedStmt<'a>)
    requires
        stmt.size() <= usize::MAX,
    ensures
        tagged.wf(),
        tagged.source() == *stmt,
{
    match stmt {
        Stmt::SAss(ident, expr) => TaggedStmt::SAss(ident, Box::new(tag_expr(expr))),
        Stmt::SExpr(expr) => TaggedStmt::SExpr(Box::new(tag_expr(expr))),
    }
}

/// Tags the expression of each statement of a program.
pub fn tag_stmts<'a>(stmts: &'a Vec<Box<Stmt>>) -> (tagged: Vec<TaggedStmt<'a>>)
    requires
        forall|i: int| 0 <= i < stmts.len() ==> (#[trigger] stmts[i]).size() <= usize::MAX,
    ensures
        tagged.len() == stmts.len(),
        forall|i: int|
            0 <= i < stmts.len() ==> (#[trigger] tagged[i]).wf() && tagged[i].source()
                == *stmts[i],
{
    let mut tagged: Vec<TaggedStmt<'a>> = Vec::new();
    let mut i: usize = 0;
    while i < stmts.len()
        invariant
            i <= stmts.len(),
            tagged.len() == i,
            forall|k: int| 0 <= k < stmts.len() ==> (#[trigger] stmts[k]).size() <= usize::MAX,
            forall|k: int|
                0 <= k < i ==> (#[trigger] tagged[k]).wf() && tagged[k].source() == *stmts[k],
        decreases stmts.len() - i,
    {
        tagged.push(tag_stmt(&stmts[i]));
        i += 1;
    }
    tagged
}

/// The code of a sequence of instructions followed by that of another.
pub proof fn lemma_listing_concat(a: Seq<Instr>, b: Seq<Instr>)
    ensures
        listing(a + b) == listing(a) + listing(b),
{
    assert(listing(a + b) =~= listing(a) + listing(b));
}

/// Emits the instructions of a statement, and gives a new variable its slot.
/// A statement that reads a variable without a slot is refused, and nothing
/// is emitted for it.
pub fn compile_tagged_stmt(stmt: &TaggedStmt, state: &mut JVMState) -> (done: Result<
    (),
    CompileError,
>)
    requires
        stmt.wf(),
        old(state).wf(),
        next_slot(slots_after(stmt.source(), old(state).slots())) <= usize::MAX,
    ensures
        done is Ok <==> stmt.source().expr().reads_only(old(state).slots().dom()),
        done is Err ==> done == Err::<(), CompileError>(CompileError::UndeclaredVariable)
            && final(state).lines() == old(state).lines() && final(state).slots() == old(
            state,
        ).slots(),
        done is Ok ==> final(state).wf() && final(state).slots() == slots_after(
            stmt.source(),
            old(state).slots(),
        ) && final(state).lines() == old(state).lines() + listing(
            stmt_code(stmt.source(), old(state).slots()),
        ),
{
    match stmt {
        TaggedStmt::SAss(ident, expr) => {
            if !knows_all(expr, state) {
                return Err(CompileError::UndeclaredVariable);
            }
            compile_tagged_expr(expr, state);
            state.push_store(ident);
            proof {
                let slots = old(state).slots();
                let e = expr_code(expr.source(), slots);
                let tail = seq![Instr::Store(assign(slots, ident@)[ident@])];
                lemma_listing_concat(e, tail);
                assert(listing(tail) =~= seq![store_text(assign(slots, ident@)[ident@])]);
                assert(state.lines() =~= old(state).lines() + listing(e + tail));
            }
            Ok(())
        },
        TaggedStmt::SExpr(expr) => {
            if !knows_all(expr, state) {
                return Err(CompileError::UndeclaredVariable);
            }
            proof {
                expr.lemma_limit_is_depth();
            }
            let ghost slots = old(state).slots();
            let ghost e = expr_code(expr.source(), slots);
            if expr.get_expr_stack_limit() == 1 {
                state.push_get_static_all_print();
                compile_tagged_expr(expr, state);
                state.push_call_print();
                proof {
                    let head = seq![Instr::GetPrinter];
                    let tail = seq![Instr::CallPrint];
                    lemma_listing_concat(head, e);
                    lemma_listing_concat(head + e, tail);
                    assert(listing(head) =~= seq![instr_text(Instr::GetPrinter)]);
                    assert(listing(tail) =~= seq![instr_text(Instr::CallPrint)]);
                    assert(state.lines() =~= old(state).lines() + listing(head + e + tail));
                }
            } else {
                compile_tagged_expr(expr, state);
                state.push_get_static_all_print();
                state.push_swap();
                state.push_call_print();
                proof {
                    let tail = seq![Instr::GetPrinter, Instr::Swap, Instr::CallPrint];
                    lemma_listing_concat(e, tail);
                    assert(listing(tail) =~= seq![
                        instr_text(Instr::GetPrinter),
                        instr_text(Instr::Swap),
                        instr_text(Instr::CallPrint),
                    ]);
                    assert(state.lines() =~= old(state).lines() + listing(e + tail));
                }
            }
            Ok(())
        },
    }
}

/// Whether every variable that the expression reads has a slot.
pub fn knows_all(expr: &TaggedExpr, state: &JVMState) -> (known: bool)
    ensures
        known == expr.source().reads_only(state.slots().dom()),
    decreases *expr,
{
    match expr {
        TaggedExpr::Number(_) => true,
        TaggedExpr::Ident(ident) => state.has_slot(ident),
        TaggedExpr::Op(l_expr, _, r_expr, _) => knows_all(l_expr, state) && knows_all(
            r_expr,
            state,
        ),
    }
}

/// Emits the instructions that leave the value of the expression on top of
/// the stack. The operand with the smaller stack need comes first, the left
/// one where the needs are equal; where that is the right operand of a
/// subtraction or a division, the two values are exchanged before the
/// operator.
pub fn compile_tagged_expr(expr: &TaggedExpr, state: &mut JVMState)
    requires
        expr.wf(),
        expr.source().reads_only(old(state).slots().dom()),
    ensures
        final(state).slots() == old(state).slots(),
        final(state).lines() == old(state).lines() + listing(
            expr_code(expr.source(), old(state).slots()),
        ),
    decreases *expr,
{
    let ghost slots = old(state).slots();
    match expr {
        TaggedExpr::Number(n) => {
            state.push_constant(*n);
            assert(state.lines() =~= old(state).lines() + listing(seq![Instr::Const(*n)]));
        },
        TaggedExpr::Ident(ident) => {
            state.push_load(ident);
            assert(state.lines() =~= old(state).lines() + listing(
                seq![Instr::Load(slots[ident@])],
            ));
        },
        TaggedExpr::Op(l_expr, opcode, r_expr, _) => {
            proof {
                l_expr.lemma_limit_is_depth();
                r_expr.lemma_limit_is_depth();
            }
            let swap_occured = r_expr.get_expr_stack_limit() < l_expr.get_expr_stack_limit();
            let first_expr = if !swap_occured {
                l_expr
            } else {
                r_expr
            };
            let second_expr = if !swap_occured {
                r_expr
            } else {
                l_expr
            };
            compile_tagged_expr(first_expr, state);
            compile_tagged_expr(second_expr, state);
            let exchange = swap_occured && !opcode.is_commutative();
            if exchange {
                state.push_swap();
            }
            state.push_opcode(opcode);
            proof {
                let first = expr_code(first_expr.source(), slots);
                let second = expr_code(second_expr.source(), slots);
                let tail = if exchange {
                    seq![Instr::Swap, Instr::Arith(**opcode)]
                } else {
                    seq![Instr::Arith(**opcode)]
                };
                lemma_listing_concat(first, second);
                lemma_listing_concat(first + second, tail);
                if exchange {
                    assert(listing(tail) =~= seq![
                        instr_text(Instr::Swap),
                        arith_text(**opcode),
                    ]);
                } else {
                    assert(listing(tail) =~= seq![arith_text(**opcode)]);
                }
                assert(expr_code(expr.source(), slots) == first + second + tail);
                assert(state.lines() =~= old(state).lines() + listing(first + second + tail));
            }
        },
    }
}

} // verus!
