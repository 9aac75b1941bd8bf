use insc::ast::{Expr, Opcode, Stmt};
use insc::error::CompileError;
use insc::llvm;
use insc::llvm::{
    name_ends_in_digit, name_is_reserved, push_loc, push_stem, starts_with, LLVMResult, LLVMState,
};

fn num(n: i32) -> Box<Expr> {
    Box::new(Expr::Number(n))
}

fn var(name: &str) -> Box<Expr> {
    Box::new(Expr::Ident(String::from(name)))
}

fn op(l: Box<Expr>, opcode: Opcode, r: Box<Expr>) -> Box<Expr> {
    Box::new(Expr::Op(l, opcode, r))
}

fn assign(name: &str, e: Box<Expr>) -> Box<Stmt> {
    Box::new(Stmt::SAss(String::from(name), e))
}

fn print(e: Box<Expr>) -> Box<Stmt> {
    Box::new(Stmt::SExpr(e))
}

const HEAD: &str = "declare void @printInt(i32)\ndefine i32 @main() {\n\t";

const TAIL: &str = "\n\tret i32 0\n}\n";

/// The instruction lines of a program text.
fn instructions(text: &str) -> Vec<String> {
    assert!(text.starts_with(HEAD));
    assert!(text.ends_with(TAIL));
    let body = &text[HEAD.len()..text.len() - TAIL.len()];
    if body.is_empty() {
        return vec![];
    }
    body.split("\n\t").map(String::from).collect()
}

/// The instruction lines of a program that is compiled without error.
fn emitted(program: &Vec<Box<Stmt>>) -> Vec<String> {
    instructions(&llvm::compile(program).unwrap())
}

#[test]
fn empty_module_has_only_the_scaffolding() {
    assert_eq!(
        llvm::compile(&vec![]).unwrap(),
        "declare void @printInt(i32)\ndefine i32 @main() {\n\t\n\tret i32 0\n}\n"
    );
}

#[test]
fn assignment_then_print_in_the_module() {
    let program = vec![assign("x", op(num(2), Opcode::Add, num(2))), print(var("x"))];
    assert_eq!(
        llvm::compile(&program).unwrap(),
        "declare void @printInt(i32)\ndefine i32 @main() {\n\t%loc_x = alloca i32\n\t%r1 = add i32 2, 2\n\tstore i32 %r1, i32* %loc_x\n\t%x0 = load i32, i32* %loc_x\n\tcall void @printInt(i32 %x0)\n\tret i32 0\n}\n"
    );
}

#[test]
fn literal_is_printed_without_any_other_instruction() {
    assert_eq!(emitted(&vec![print(num(-5))]), vec!["call void @printInt(i32 -5)"]);
}

#[test]
fn location_is_allocated_at_the_first_assignment_only() {
    let program = vec![assign("a", num(1)), assign("a", num(2)), assign("b", var("a"))];
    assert_eq!(
        emitted(&program),
        vec![
            "%loc_a = alloca i32",
            "store i32 1, i32* %loc_a",
            "store i32 2, i32* %loc_a",
            "%loc_b = alloca i32",
            "%a0 = load i32, i32* %loc_a",
            "store i32 %a0, i32* %loc_b",
        ]
    );
}

#[test]
fn reads_of_a_variable_are_numbered_one_by_one() {
    let program = vec![
        assign("y", num(5)),
        assign("z", num(6)),
        print(op(var("y"), Opcode::Mul, op(var("y"), Opcode::Sub, var("z")))),
        print(var("z")),
        print(var("y")),
    ];
    assert_eq!(
        emitted(&program),
        vec![
            "%loc_y = alloca i32",
            "store i32 5, i32* %loc_y",
            "%loc_z = alloca i32",
            "store i32 6, i32* %loc_z",
            "%y0 = load i32, i32* %loc_y",
            "%y1 = load i32, i32* %loc_y",
            "%z0 = load i32, i32* %loc_z",
            "%r1 = sub i32 %y1, %z0",
            "%r2 = mul i32 %y0, %r1",
            "call void @printInt(i32 %r2)",
            "%z1 = load i32, i32* %loc_z",
            "call void @printInt(i32 %z1)",
            "%y2 = load i32, i32* %loc_y",
            "call void @printInt(i32 %y2)",
        ]
    );
}

#[test]
fn operands_are_evaluated_left_to_right() {
    let left = op(num(1), Opcode::Add, num(2));
    let right = op(op(num(3), Opcode::Mul, num(4)), Opcode::Div, num(5));
    let program = vec![print(op(left, Opcode::Sub, right))];
    assert_eq!(
        emitted(&program),
        vec![
            "%r1 = add i32 1, 2",
            "%r2 = mul i32 3, 4",
            "%r3 = idiv i32 %r2, 5",
            "%r4 = sub i32 %r1, %r3",
            "call void @printInt(i32 %r4)",
        ]
    );
}

#[test]
fn reads_of_a_variable_named_r_are_set_apart_from_registers() {
    let program = vec![
        assign("r", num(1)),
        assign("r1", num(2)),
        print(op(var("r"), Opcode::Add, var("r1"))),
        print(var("r")),
    ];
    assert_eq!(
        emitted(&program),
        vec![
            "%loc_r = alloca i32",
            "store i32 1, i32* %loc_r",
            "%loc_r1 = alloca i32",
            "store i32 2, i32* %loc_r1",
            "%var__r0 = load i32, i32* %loc_r",
            "%num__r1_0 = load i32, i32* %loc_r1",
            "%r1 = add i32 %var__r0, %num__r1_0",
            "call void @printInt(i32 %r1)",
            "%var__r1 = load i32, i32* %loc_r",
            "call void @printInt(i32 %var__r1)",
        ]
    );
}

#[test]
fn unassigned_variable_is_refused_by_the_register_machine() {
    assert_eq!(llvm::compile(&vec![print(var("z"))]), Err(CompileError::UndeclaredVariable));
    let program = vec![assign("x", op(var("x"), Opcode::Add, num(1)))];
    assert_eq!(llvm::compile(&program), Err(CompileError::UndeclaredVariable));
    let program = vec![assign("x", num(1)), print(var("x")), print(var("y")), assign("y", num(1))];
    assert_eq!(llvm::compile(&program), Err(CompileError::UndeclaredVariable));
}

#[test]
fn values_are_written_by_their_kind() {
    assert_eq!(LLVMResult::Constant(-12).to_text(), "-12");
    assert_eq!(LLVMResult::Constant(0).to_text(), "0");
    assert_eq!(LLVMResult::Register(17).to_text(), "%r17");
    assert_eq!(LLVMResult::RegisterVar(String::from("total"), 3).to_text(), "%total3");
    assert_eq!(LLVMResult::RegisterVar(String::from("r"), 0).to_text(), "%var__r0");
    assert_eq!(LLVMResult::RegisterVar(String::from("rr"), 0).to_text(), "%rr0");
    assert_eq!(LLVMResult::RegisterVar(String::from("x"), 10).to_text(), "%x10");
    assert_eq!(LLVMResult::RegisterVar(String::from("x1"), 0).to_text(), "%num__x1_0");
    assert_eq!(LLVMResult::RegisterVar(String::from("r1"), 0).to_text(), "%num__r1_0");
    assert_eq!(LLVMResult::RegisterVar(String::new(), 0).to_text(), "%num___0");
    assert_eq!(LLVMResult::RegisterVar(String::from("var__r"), 0).to_text(), "%var__var__r0");
    assert_eq!(LLVMResult::RegisterVar(String::from("loc_a"), 0).to_text(), "%var__loc_a0");
    assert_eq!(LLVMResult::RegisterVar(String::from("num__x"), 2).to_text(), "%var__num__x2");
    assert_eq!(LLVMResult::RegisterVar(String::from("loc"), 0).to_text(), "%loc0");
    assert_eq!(LLVMResult::RegisterVar(String::from("var_x"), 0).to_text(), "%var_x0");
    let mut out = String::from("x = ");
    LLVMResult::Register(2).write_to(&mut out);
    assert_eq!(out, "x = %r2");
}

#[test]
fn operators_have_their_names() {
    assert_eq!(Opcode::Add.to_text(), "add");
    assert_eq!(Opcode::Sub.to_text(), "sub");
    assert_eq!(Opcode::Mul.to_text(), "mul");
    assert_eq!(Opcode::Div.to_text(), "idiv");
}

#[test]
fn state_emits_each_instruction_as_asked() {
    let mut state = LLVMState::new();
    let name = String::from("v");
    state.alloca(&name);
    state.store(LLVMResult::Constant(9), &name);
    let read = LLVMResult::RegisterVar(String::from("v"), 0);
    state.load(&read, &name);
    let first = state.get_next_register_number();
    let second = state.get_next_register_number();
    assert_eq!((first, second), (1, 2));
    let result = LLVMResult::Register(second);
    state.arithmetic(&result, &Opcode::Div, &read, &LLVMResult::Constant(2));
    state.print(result);
    assert_eq!(
        instructions(&state.generate_code()),
        vec![
            "%loc_v = alloca i32",
            "store i32 9, i32* %loc_v",
            "%v0 = load i32, i32* %loc_v",
            "%r2 = idiv i32 %v0, 2",
            "call void @printInt(i32 %r2)",
        ]
    );
}

#[test]
fn expression_gives_back_the_value_that_holds_its_result() {
    let mut state = LLVMState::new();
    let literal = llvm::compile_expr(&Expr::Number(4), &mut state);
    assert!(matches!(literal, LLVMResult::Constant(4)));
    let sum = llvm::compile_expr(&op(num(1), Opcode::Add, num(2)), &mut state);
    assert!(matches!(sum, LLVMResult::Register(1)));
    assert_eq!(instructions(&state.generate_code()), vec!["%r1 = add i32 1, 2"]);
}

#[test]
fn refused_statement_emits_nothing() {
    let mut state = LLVMState::new();
    assert_eq!(llvm::compile_stmt(&assign("x", num(1)), &mut state), Ok(()));
    let before = state.generate_code();
    let bad = assign("y", op(var("x"), Opcode::Add, var("y")));
    assert_eq!(llvm::compile_stmt(&bad, &mut state), Err(CompileError::UndeclaredVariable));
    assert_eq!(state.generate_code(), before);
    assert_eq!(llvm::compile_stmt(&assign("y", var("x")), &mut state), Ok(()));
    assert!(llvm::reads_allocated(&Expr::Ident(String::from("y")), &state));
    assert!(!llvm::reads_allocated(&Expr::Ident(String::from("w")), &state));
}

#[test]
fn reads_of_r_and_of_a_name_that_holds_the_mark_are_told_apart() {
    let program = vec![
        assign("r", num(1)),
        assign("var__r", num(2)),
        print(op(var("r"), Opcode::Add, var("var__r"))),
    ];
    assert_eq!(
        emitted(&program),
        vec![
            "%loc_r = alloca i32",
            "store i32 1, i32* %loc_r",
            "%loc_var__r = alloca i32",
            "store i32 2, i32* %loc_var__r",
            "%var__r0 = load i32, i32* %loc_r",
            "%var__var__r0 = load i32, i32* %loc_var__r",
            "%r1 = add i32 %var__r0, %var__var__r0",
            "call void @printInt(i32 %r1)",
        ]
    );
}

#[test]
fn read_of_a_name_that_starts_like_a_location_is_set_apart() {
    let program = vec![
        assign("loc_a", num(1)),
        assign("a0", num(2)),
        print(op(var("loc_a"), Opcode::Add, var("a0"))),
    ];
    assert_eq!(
        emitted(&program),
        vec![
            "%loc_loc_a = alloca i32",
            "store i32 1, i32* %loc_loc_a",
            "%loc_a0 = alloca i32",
            "store i32 2, i32* %loc_a0",
            "%var__loc_a0 = load i32, i32* %loc_loc_a",
            "%num__a0_0 = load i32, i32* %loc_a0",
            "%r1 = add i32 %var__loc_a0, %num__a0_0",
            "call void @printInt(i32 %r1)",
        ]
    );
}

#[test]
fn prefix_is_found_at_the_start_only() {
    assert!(starts_with("loc_a", "loc_"));
    assert!(starts_with("loc_", "loc_"));
    assert!(starts_with("anything", ""));
    assert!(!starts_with("loc", "loc_"));
    assert!(!starts_with("aloc_", "loc_"));
    assert!(!starts_with("lac_a", "loc_"));
}

#[test]
fn names_are_sorted_by_how_they_would_read() {
    assert!(name_ends_in_digit(""));
    assert!(name_ends_in_digit("x1"));
    assert!(name_ends_in_digit("9"));
    assert!(!name_ends_in_digit("x"));
    assert!(!name_ends_in_digit("1x"));
    assert!(name_is_reserved("r"));
    assert!(name_is_reserved("loc_x"));
    assert!(name_is_reserved("var__"));
    assert!(name_is_reserved("num__x"));
    assert!(!name_is_reserved("rr"));
    assert!(!name_is_reserved("R"));
    assert!(!name_is_reserved("location"));
    assert!(!name_is_reserved("var_x"));
}

#[test]
fn stems_and_locations_are_appended() {
    let mut out = String::from("%");
    push_stem(&mut out, "total");
    push_stem(&mut out, "x2");
    push_stem(&mut out, "r");
    assert_eq!(out, "%totalnum__x2_var__r");
    let mut out = String::from("i32* ");
    push_loc(&mut out, "x2");
    assert_eq!(out, "i32* %loc_x2");
}

#[test]
fn reads_are_numbered_per_variable_from_zero() {
    let mut state = LLVMState::new();
    let a = String::from("a");
    let b = String::from("b");
    assert_eq!(state.next_read_number(&a), 0);
    assert_eq!(state.next_read_number(&a), 1);
    assert_eq!(state.next_read_number(&b), 0);
    assert_eq!(state.next_read_number(&a), 2);
    assert_eq!(state.next_read_number(&b), 1);
}
