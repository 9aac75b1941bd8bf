//! The syntax tree that both backends consume.
use vstd::prelude::*;
use vstd::string::StringExecFns;

verus! {

/// One of the four arithmetic operators.
#[derive(Debug, Clone, Copy, PartialEq, Eq, Structural)]
pub enum Opcode {
    Add,
    Sub,
    Mul,
    Div,
}

/// An expression: a literal, a variable or an operation on two expressions.
#[derive(Debug)]
pub enum Expr {
    Number(i32),
    Ident(String),
    Op(Box<Expr>, Opcode, Box<Expr>),
}

/// A statement: an assignment to a variable, or an expression whose value is
/// printed.
#[derive(Debug)]
pub enum Stmt {
    SAss(String, Box<Expr>),
    SExpr(Box<Expr>),
}

impl Opcode {
    /// Whether the operands may be exchanged without changing the result.
    pub open spec fn commutes(self) -> bool {
        self == Opcode::Add || self == Opcode::Mul
    }

    /// The name of the operator as it is written out.
    pub open spec fn text(self) -> Seq<char> {
        match self {
            Opcode::Add => "add"@,
            Opcode::Sub => "sub"@,
            Opcode::Mul => "mul"@,
            Opcode::Div => "idiv"@,
        }
    }

    /// The name of the operator as it is written out.
    pub fn to_text(&self) -> (name: String)
        ensures
            name@ == self.text(),
    {
        match self {
            Opcode::Add => String::from_str("add"),
            Opcode::Sub => String::from_str("sub"),
            Opcode::Mul => String::from_str("mul"),
            Opcode::Div => String::from_str("idiv"),
        }
    }

    /// Tells addition and multiplication from subtraction and division.
    pub fn is_commutative(&self) -> (r: bool)
        ensures
            r == self.commutes(),
    {
        match self {
            Opcode::Add | Opcode::Mul => true,
            Opcode::Sub | Opcode::Div => false,
        }
    }
}

impl Expr {
    /// The number of nodes of the tree.
    pub open spec fn size(self) -> nat
        decreases self,
    {
        match self {
            Expr::Number(_) => 1,
            Expr::Ident(_) => 1,
            Expr::Op(l, _, r) => 1 + l.size() + r.size(),
        }
    }

    /// Every variable that the expression reads is in `known`.
    pub open spec fn reads_only(self, known: Set<Seq<char>>) -> bool
        decreases self,
    {
        match self {
            Expr::Number(_) => true,
            Expr::Ident(name) => known.contains(name@),
            Expr::Op(l, _, r) => l.reads_only(known) && r.reads_only(known),
        }
    }
}

/// An expression that reads only variables of a set reads only variables of
/// any set that holds them.
pub proof fn lemma_reads_only_grows(e: Expr, known: Set<Seq<char>>, more: Set<Seq<char>>)
    requires
        e.reads_only(known),
        known.subset_of(more),
    ensures
        e.reads_only(more),
    decreases e,
{
    match e {
        Expr::Number(_) => {},
        Expr::Ident(_) => {},
        Expr::Op(l, _, r) => {
            lemma_reads_only_grows(*l, known, more);
            lemma_reads_only_grows(*r, known, more);
        },
    }
}

impl Stmt {
    /// The expression of the statement.
    pub open spec fn expr(self) -> Expr {
        match self {
            Stmt::SAss(_, e) => *e,
            Stmt::SExpr(e) => *e,
        }
    }

    /// The size of the statement: the nodes of its expression, one for the
    /// statement and one for the variable or the output that it writes to.
    pub open spec fn size(self) -> nat {
        self.expr().size() + 2
    }
}

/// The variables that the first `n` statements assign.
pub open spec fn assigned(stmts: Seq<Box<Stmt>>, n: nat) -> Set<Seq<char>>
    recommends
        n <= stmts.len(),
    decreases n,
{
    if n == 0 {
        Set::empty()
    } else {
        match *stmts[n - 1] {
            Stmt::SAss(name, _) => assigned(stmts, (n - 1) as nat).insert(name@),
            Stmt::SExpr(_) => assigned(stmts, (n - 1) as nat),
        }
    }
}

/// Each of the first `n` statements reads only variables that an earlier
/// statement has assigned.
pub open spec fn well_scoped(stmts: Seq<Box<Stmt>>, n: nat) -> bool
    recommends
        n <= stmts.len(),
    decreases n,
{
    n == 0 || (well_scoped(stmts, (n - 1) as nat) && stmts[n - 1].expr().reads_only(
        assigned(stmts, (n - 1) as nat),
    ))
}

/// A program that is well scoped up to `n` statements is well scoped up to
/// any smaller number of them.
pub proof fn lemma_well_scoped_prefix(stmts: Seq<Box<Stmt>>, i: nat, n: nat)
    requires
        i <= n,
        well_scoped(stmts, n),
    ensures
        well_scoped(stmts, i),
    decreases n,
{
    if i < n {
        lemma_well_scoped_prefix(stmts, i, (n - 1) as nat);
    }
}

/// The size of the first `n` statements together.
pub open spec fn program_size(stmts: Seq<Box<Stmt>>, n: nat) -> nat
    recommends
        n <= stmts.len(),
    decreases n,
{
    if n == 0 {
        0
    } else {
        program_size(stmts, (n - 1) as nat) + stmts[n - 1].size()
    }
}

/// Takes the size of an expression off a budget: what is left of it, or
/// nothing where the expression is larger than the budget.
pub fn spend(expr: &Expr, budget: usize) -> (left: Option<usize>)
    ensures
        match left {
            Some(rest) => expr.size() + rest == budget,
            None => expr.size() > budget,
        },
    decreases *expr,
{
    if budget == 0 {
        return None;
    }
    match expr {
        Expr::Number(_) => Some(budget - 1),
        Expr::Ident(_) => Some(budget - 1),
        Expr::Op(l_expr, _, r_expr) => match spend(l_expr, budget - 1) {
            Some(rest) => spend(r_expr, rest),
            None => None,
        },
    }
}

/// Whether the size of a program is one that a machine integer holds: the
/// programs that the backends take.
pub fn fits(stmts: &Vec<Box<Stmt>>) -> (ok: bool)
    ensures
        ok == (program_size(stmts@, stmts.len() as nat) <= usize::MAX),
{
    let mut budget: usize = usize::MAX;
    let mut i: usize = 0;
    while i < stmts.len()
        invariant
            i <= stmts.len(),
            program_size(stmts@, i as nat) + budget == usize::MAX,
        decreases stmts.len() - i,
    {
        let expr: &Expr = match &*stmts[i] {
            Stmt::SAss(_, e) => e,
            Stmt::SExpr(e) => e,
        };
        proof {
            lemma_program_size_holds(stmts@, i as nat, stmts.len() as nat);
        }
        if budget < 2 {
            return false;
        }
        match spend(expr, budget - 2) {
            Some(rest) => {
                budget = rest;
            },
            None => {
                return false;
            },
        }
        i += 1;
    }
    true
}

/// A statement counts into the size of every prefix that holds it, and the
/// size of a prefix is at least the number of its statements.
pub proof fn lemma_program_size_holds(stmts: Seq<Box<Stmt>>, i: nat, n: nat)
    requires
        i < n,
    ensures
        program_size(stmts, i) + stmts[i as int].size() <= program_size(stmts, n),
        2 * n <= program_size(stmts, n),
    decreases n,
{
    if n > 1 {
        if i < n - 1 {
            lemma_program_size_holds(stmts, i, (n - 1) as nat);
        } else {
            lemma_program_size_holds(stmts, (n - 2) as nat, (n - 1) as nat);
        }
    }
}

} // verus!
