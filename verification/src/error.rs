//! Why a program is refused.
use vstd::prelude::*;

verus! {

/// The reason for which a program is not compiled.
#[derive(Debug, Clone, Copy, PartialEq, Eq, Structural)]
pub enum CompileError {
    /// An expression reads a variable that no earlier statement has assigned.
    UndeclaredVariable,
}

} // verus!
