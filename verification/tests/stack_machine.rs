use insc::ast::{Expr, Opcode, Stmt};
use insc::error::CompileError;
use insc::jvm;
use insc::jvm::{JVMState, TaggedExpr, TaggedStmt};

fn num(n: i32) -> Box<Expr> {
    Box::new(Expr::Number(n))
}

fn var(name: &str) -> Box<Expr> {
    Box::new(Expr::Ident(String::from(name)))
}

fn op(l: Box<Expr>, opcode: Opcode, r: Box<Expr>) -> Box<Expr> {
    Box::new(Expr::Op(l, opcode, r))
}

fn assign(name: &str, e: Box<Expr>) -> Box<Stmt> {
    Box::new(Stmt::SAss(String::from(name), e))
}

fn print(e: Box<Expr>) -> Box<Stmt> {
    Box::new(Stmt::SExpr(e))
}

const HEAD: &str = ".super  java/lang/Object\n.method public <init>()V\n\taload_0\n\tinvokespecial java/lang/Object/<init>()V\n\treturn\n.end method\n.method public static main([Ljava/lang/String;)V\n";

const TAIL: &str = "\n\treturn\n.end method\n";

/// The instruction lines of a program text.
fn instructions(text: &str) -> Vec<String> {
    let start = text.find(".limit locals ").unwrap();
    let body = &text[start..];
    let first = body.find('\n').unwrap() + 1;
    let body = &body[first..body.len() - TAIL.len()];
    if body.is_empty() {
        return vec![];
    }
    body.split("\n\t").map(String::from).collect()
}

/// The instruction lines of a program that is compiled without error.
fn emitted(program: &Vec<Box<Stmt>>) -> Vec<String> {
    instructions(&jvm::compile(program, "T").unwrap())
}

/// The line that pushes the literal `n`.
fn push_of(n: i32) -> String {
    emitted(&vec![assign("x", num(n))])[0].clone()
}

/// The number that a program text declares after `key`.
fn declared(text: &str, key: &str) -> usize {
    let start = text.find(key).unwrap() + key.len();
    let rest = &text[start..];
    let end = rest.find('\n').unwrap();
    rest[..end].parse().unwrap()
}

#[test]
fn empty_program_has_only_the_scaffolding() {
    let text = jvm::compile(&vec![], "Empty").unwrap();
    assert_eq!(
        text,
        format!(".class public Empty\n{}.limit stack 0\n.limit locals 1\n{}", HEAD, TAIL)
    );
}

#[test]
fn assignment_then_print() {
    let program = vec![assign("x", op(num(2), Opcode::Add, num(2))), print(var("x"))];
    let text = jvm::compile(&program, "T").unwrap();
    assert_eq!(
        text,
        ".class public T\n.super  java/lang/Object\n.method public <init>()V\n\taload_0\n\tinvokespecial java/lang/Object/<init>()V\n\treturn\n.end method\n.method public static main([Ljava/lang/String;)V\n.limit stack 3\n.limit locals 2\niconst_2\n\ticonst_2\n\tiadd\n\tistore_1\n\tgetstatic  java/lang/System/out Ljava/io/PrintStream;\n\tiload_1\n\tinvokevirtual java/io/PrintStream/println(I)V\n\treturn\n.end method\n"
    );
}

#[test]
fn class_name_is_written_into_the_header() {
    let text = jvm::compile(&vec![assign("x", num(1))], "my_program").unwrap();
    assert!(text.starts_with(".class public my_program\n.super  java/lang/Object\n"));
}

#[test]
fn unassigned_variable_is_refused() {
    let program = vec![print(var("z"))];
    assert_eq!(jvm::compile(&program, "T"), Err(CompileError::UndeclaredVariable));
}

#[test]
fn variable_read_in_its_first_assignment_is_refused() {
    let program = vec![assign("x", op(var("x"), Opcode::Add, num(1)))];
    assert_eq!(jvm::compile(&program, "T"), Err(CompileError::UndeclaredVariable));
}

#[test]
fn variable_read_before_a_later_assignment_is_refused() {
    let program = vec![assign("a", num(1)), print(op(var("a"), Opcode::Mul, var("b"))), assign("b", num(2))];
    assert_eq!(jvm::compile(&program, "T"), Err(CompileError::UndeclaredVariable));
}

#[test]
fn literal_minus_one_has_its_own_instruction() {
    assert_eq!(push_of(-1), "iconst_m1");
}

#[test]
fn literals_one_to_five_have_their_own_instructions() {
    assert_eq!(push_of(1), "iconst_1");
    assert_eq!(push_of(2), "iconst_2");
    assert_eq!(push_of(3), "iconst_3");
    assert_eq!(push_of(4), "iconst_4");
    assert_eq!(push_of(5), "iconst_5");
}

#[test]
fn literals_of_a_signed_byte_are_pushed_as_bytes() {
    assert_eq!(push_of(-2), "bipush -2");
    assert_eq!(push_of(0), "bipush 0");
    assert_eq!(push_of(6), "bipush 6");
    assert_eq!(push_of(127), "bipush 127");
    assert_eq!(push_of(-128), "bipush -128");
}

#[test]
fn literals_of_a_signed_short_are_pushed_as_shorts() {
    assert_eq!(push_of(128), "sipush 128");
    assert_eq!(push_of(-129), "sipush -129");
    assert_eq!(push_of(32767), "sipush 32767");
    assert_eq!(push_of(-32768), "sipush -32768");
}

#[test]
fn other_literals_are_loaded_as_constants() {
    assert_eq!(push_of(32768), "ldc 32768");
    assert_eq!(push_of(-32769), "ldc -32769");
    assert_eq!(push_of(i32::MAX), "ldc 2147483647");
    assert_eq!(push_of(i32::MIN), "ldc -2147483648");
}

#[test]
fn slots_are_given_in_order_of_first_assignment() {
    let program = vec![
        assign("a", num(1)),
        assign("b", num(1)),
        assign("c", num(1)),
        assign("d", num(1)),
        assign("e", num(1)),
        print(var("a")),
        print(var("c")),
        print(var("d")),
        print(var("e")),
    ];
    let text = jvm::compile(&program, "T").unwrap();
    assert_eq!(declared(&text, ".limit locals "), 6);
    let code = instructions(&text);
    assert_eq!(code[1], "istore_1");
    assert_eq!(code[3], "istore_2");
    assert_eq!(code[5], "istore_3");
    assert_eq!(code[7], "istore 4");
    assert_eq!(code[9], "istore 5");
    assert_eq!(code[11], "iload_1");
    assert_eq!(code[14], "iload_3");
    assert_eq!(code[17], "iload 4");
    assert_eq!(code[20], "iload 5");
}

#[test]
fn a_variable_keeps_its_slot_when_it_is_assigned_again() {
    let program = vec![
        assign("a", num(1)),
        assign("b", num(2)),
        assign("a", num(3)),
        assign("c", var("a")),
        print(var("b")),
    ];
    let text = jvm::compile(&program, "T").unwrap();
    assert_eq!(declared(&text, ".limit locals "), 4);
    assert_eq!(
        instructions(&text),
        vec![
            "iconst_1",
            "istore_1",
            "iconst_2",
            "istore_2",
            "iconst_3",
            "istore_1",
            "iload_1",
            "istore_3",
            "getstatic  java/lang/System/out Ljava/io/PrintStream;",
            "iload_2",
            "invokevirtual java/io/PrintStream/println(I)V",
        ]
    );
}

#[test]
fn operands_of_equal_need_are_evaluated_left_first_without_exchange() {
    let program = vec![
        assign("a", num(10)),
        assign("b", num(3)),
        print(op(var("a"), Opcode::Sub, var("b"))),
    ];
    assert_eq!(
        emitted(&program),
        vec![
            "bipush 10",
            "istore_1",
            "iconst_3",
            "istore_2",
            "iload_1",
            "iload_2",
            "isub",
            "getstatic  java/lang/System/out Ljava/io/PrintStream;",
            "swap",
            "invokevirtual java/io/PrintStream/println(I)V",
        ]
    );
}

#[test]
fn right_operand_of_smaller_need_comes_first_and_is_exchanged() {
    let left = op(num(8), Opcode::Add, num(9));
    let program = vec![assign("x", op(left, Opcode::Sub, num(7)))];
    assert_eq!(
        emitted(&program),
        vec!["bipush 7", "bipush 8", "bipush 9", "iadd", "swap", "isub", "istore_1"]
    );
}

#[test]
fn division_is_exchanged_like_subtraction() {
    let left = op(num(8), Opcode::Mul, num(9));
    let program = vec![assign("x", op(left, Opcode::Div, num(7)))];
    assert_eq!(
        emitted(&program),
        vec!["bipush 7", "bipush 8", "bipush 9", "imul", "swap", "idiv", "istore_1"]
    );
}

#[test]
fn commutative_operators_are_never_exchanged() {
    let program = vec![
        assign("x", op(op(num(8), Opcode::Sub, num(9)), Opcode::Add, num(7))),
        assign("y", op(op(num(8), Opcode::Div, num(9)), Opcode::Mul, num(7))),
    ];
    assert_eq!(
        emitted(&program),
        vec![
            "bipush 7", "bipush 8", "bipush 9", "isub", "iadd", "istore_1", "bipush 7",
            "bipush 8", "bipush 9", "idiv", "imul", "istore_2",
        ]
    );
}

#[test]
fn left_operand_of_smaller_need_stays_first() {
    let right = op(num(8), Opcode::Add, num(9));
    let program = vec![assign("x", op(num(7), Opcode::Sub, right))];
    assert_eq!(
        emitted(&program),
        vec!["bipush 7", "bipush 8", "bipush 9", "iadd", "isub", "istore_1"]
    );
}

#[test]
fn printed_leaf_is_pushed_above_the_stream() {
    let program = vec![print(num(42))];
    let text = jvm::compile(&program, "T").unwrap();
    assert_eq!(declared(&text, ".limit stack "), 3);
    assert_eq!(
        instructions(&text),
        vec![
            "getstatic  java/lang/System/out Ljava/io/PrintStream;",
            "bipush 42",
            "invokevirtual java/io/PrintStream/println(I)V",
        ]
    );
}

#[test]
fn printed_operation_is_exchanged_with_the_stream() {
    let program = vec![print(op(num(4), Opcode::Mul, num(5)))];
    let text = jvm::compile(&program, "T").unwrap();
    assert_eq!(declared(&text, ".limit stack "), 4);
    assert_eq!(
        instructions(&text),
        vec![
            "iconst_4",
            "iconst_5",
            "imul",
            "getstatic  java/lang/System/out Ljava/io/PrintStream;",
            "swap",
            "invokevirtual java/io/PrintStream/println(I)V",
        ]
    );
}

#[test]
fn stack_limit_is_the_largest_among_the_statements() {
    let deep = op(op(num(1), Opcode::Add, num(2)), Opcode::Add, op(num(3), Opcode::Add, num(4)));
    let program = vec![assign("a", num(1)), print(deep), assign("b", num(2))];
    let text = jvm::compile(&program, "T").unwrap();
    assert_eq!(declared(&text, ".limit stack "), 5);
    let only_assignments = vec![assign("a", num(1)), assign("b", op(num(1), Opcode::Add, num(2)))];
    let text = jvm::compile(&only_assignments, "T").unwrap();
    assert_eq!(declared(&text, ".limit stack "), 3);
}

#[test]
fn need_of_a_leaf_is_one() {
    let literal = Expr::Number(7);
    let variable = Expr::Ident(String::from("v"));
    assert_eq!(jvm::tag_expr(&literal).get_expr_stack_limit(), 1);
    assert_eq!(jvm::tag_expr(&variable).get_expr_stack_limit(), 1);
}

#[test]
fn need_of_an_operation_is_one_more_than_the_smaller_need() {
    let two = op(num(1), Opcode::Add, num(2));
    assert_eq!(jvm::tag_expr(&two).get_expr_stack_limit(), 2);
    let three = op(op(num(1), Opcode::Add, num(2)), Opcode::Sub, op(num(3), Opcode::Add, num(4)));
    assert_eq!(jvm::tag_expr(&three).get_expr_stack_limit(), 3);
    let lopsided = op(three, Opcode::Mul, num(5));
    assert_eq!(jvm::tag_expr(&lopsided).get_expr_stack_limit(), 2);
    let chain = op(num(1), Opcode::Add, op(num(2), Opcode::Add, op(num(3), Opcode::Add, num(4))));
    assert_eq!(jvm::tag_expr(&chain).get_expr_stack_limit(), 2);
}

#[test]
fn tagged_tree_mirrors_its_source() {
    let e = op(var("a"), Opcode::Div, num(2));
    let tagged = jvm::tag_expr(&e);
    match tagged {
        TaggedExpr::Op(l, opcode, r, limit) => {
            assert_eq!(limit, 2);
            assert_eq!(*opcode, Opcode::Div);
            assert!(matches!(*l, TaggedExpr::Ident(name) if name == "a"));
            assert!(matches!(*r, TaggedExpr::Number(2)));
        }
        _ => panic!("an operation is tagged as an operation"),
    }
}

#[test]
fn need_of_a_statement_adds_one_for_a_store_and_two_for_a_print() {
    let store = assign("x", op(num(1), Opcode::Add, num(2)));
    let show = print(op(num(1), Opcode::Add, num(2)));
    assert_eq!(jvm::tag_stmt(&store).get_stmt_stack_limit(), 3);
    assert_eq!(jvm::tag_stmt(&show).get_stmt_stack_limit(), 4);
    assert_eq!(jvm::tag_stmt(&print(num(1))).get_stmt_stack_limit(), 3);
    assert_eq!(jvm::tag_stmt(&assign("x", num(1))).get_stmt_stack_limit(), 2);
}

#[test]
fn statements_are_tagged_in_order() {
    let program = vec![assign("x", num(1)), print(op(var("x"), Opcode::Add, num(2)))];
    let tagged = jvm::tag_stmts(&program);
    assert_eq!(tagged.len(), 2);
    assert!(matches!(&tagged[0], TaggedStmt::SAss(name, _) if *name == "x"));
    assert!(matches!(&tagged[1], TaggedStmt::SExpr(_)));
    assert_eq!(tagged[1].get_stmt_stack_limit(), 4);
}

#[test]
fn state_emits_one_line_per_call() {
    let mut state = JVMState::new();
    assert_eq!(state.get_next_free_var_slot(), 1);
    state.push_constant(300);
    state.push_store(&String::from("v"));
    assert_eq!(state.get_next_free_var_slot(), 2);
    assert!(state.has_slot(&String::from("v")));
    assert!(!state.has_slot(&String::from("w")));
    state.push_get_static_all_print();
    state.push_load(&String::from("v"));
    state.push_constant(-1);
    state.push_swap();
    state.push_opcode(&Opcode::Div);
    state.push_call_print();
    let text = state.generate_code("Direct", 3);
    assert_eq!(declared(&text, ".limit stack "), 3);
    assert_eq!(declared(&text, ".limit locals "), 2);
    assert_eq!(
        instructions(&text),
        vec![
            "sipush 300",
            "istore_1",
            "getstatic  java/lang/System/out Ljava/io/PrintStream;",
            "iload_1",
            "iconst_m1",
            "swap",
            "idiv",
            "invokevirtual java/io/PrintStream/println(I)V",
        ]
    );
}

#[test]
fn each_operator_has_its_instruction() {
    let mut state = JVMState::new();
    state.push_opcode(&Opcode::Add);
    state.push_opcode(&Opcode::Sub);
    state.push_opcode(&Opcode::Mul);
    state.push_opcode(&Opcode::Div);
    assert_eq!(instructions(&state.generate_code("T", 0)), vec!["iadd", "isub", "imul", "idiv"]);
}

#[test]
fn refused_statement_leaves_the_state_as_it_was() {
    let mut state = JVMState::new();
    let good = assign("x", num(1));
    let bad = print(op(var("x"), Opcode::Add, var("y")));
    assert_eq!(jvm::compile_tagged_stmt(&jvm::tag_stmt(&good), &mut state), Ok(()));
    let before = state.generate_code("T", 2);
    assert_eq!(
        jvm::compile_tagged_stmt(&jvm::tag_stmt(&bad), &mut state),
        Err(CompileError::UndeclaredVariable)
    );
    assert_eq!(state.generate_code("T", 2), before);
}

#[test]
fn opcode_tells_whether_it_commutes() {
    assert!(Opcode::Add.is_commutative());
    assert!(Opcode::Mul.is_commutative());
    assert!(!Opcode::Sub.is_commutative());
    assert!(!Opcode::Div.is_commutative());
}
