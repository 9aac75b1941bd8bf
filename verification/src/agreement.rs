//! The two backends against each other.
use vstd::prelude::*;
use crate::ast::{program_size, well_scoped, Stmt};
use crate::semantics::run;

verus! {

/// The instructions that the two backends emit for a program print the same
/// integers when each machine runs its own, and one machine stops early if
/// and only if the other does: both print what the program means. The
/// register machine knows each result and each location by the identifier
/// that stands in the text, and would stop at an identifier defined twice.
pub proof fn lemma_backends_agree(stmts: Seq<Box<Stmt>>)
    requires
        well_scoped(stmts, stmts.len()),
        program_size(stmts, stmts.len()) <= usize::MAX,
    ensures
        ({
            let stack = crate::jvm::machine::exec(
                crate::jvm::code::program_code(stmts, stmts.len()),
                crate::jvm::machine::start(),
            );
            let register = crate::llvm::machine::exec(
                crate::llvm::code::program_code(stmts, stmts.len()),
                crate::llvm::machine::start(),
            );
            &&& stack.output == register.output
            &&& stack.halted == register.halted
            &&& stack.output == run(stmts, stmts.len()).output
        }),
{
    crate::jvm::machine::lemma_program_exec(stmts, stmts.len());
    crate::llvm::machine::lemma_program_exec(stmts, stmts.len());
}

} // verus!
