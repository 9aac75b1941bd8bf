use std::collections::HashMap;

use insc::ast::{fits, spend, Expr, Opcode, Stmt};
use insc::error::CompileError;
use insc::{jvm, llvm};

fn num(n: i32) -> Box<Expr> {
    Box::new(Expr::Number(n))
}

fn var(name: &str) -> Box<Expr> {
    Box::new(Expr::Ident(String::from(name)))
}

fn op(l: Box<Expr>, opcode: Opcode, r: Box<Expr>) -> Box<Expr> {
    Box::new(Expr::Op(l, opcode, r))
}

fn assign(name: &str, e: Box<Expr>) -> Box<Stmt> {
    Box::new(Stmt::SAss(String::from(name), e))
}

fn print(e: Box<Expr>) -> Box<Stmt> {
    Box::new(Stmt::SExpr(e))
}

/// The lines between the end of `head` and the start of `tail`.
fn body_lines(text: &str, head: &str, tail: &str) -> Vec<String> {
    let start = text.find(head).unwrap() + head.len();
    let body = &text[start..text.len() - tail.len()];
    assert!(text.ends_with(tail));
    if body.is_empty() {
        return vec![];
    }
    body.split("\n\t").map(String::from).collect()
}

fn arith(name: &str, a: i32, b: i32) -> Option<i32> {
    match name {
        "add" => Some(a.wrapping_add(b)),
        "sub" => Some(a.wrapping_sub(b)),
        "mul" => Some(a.wrapping_mul(b)),
        "idiv" => {
            if b == 0 {
                None
            } else {
                Some(a.wrapping_div(b))
            }
        }
        other => panic!("unknown operator {}", other),
    }
}

#[derive(Clone, Copy, Debug, PartialEq)]
enum Cell {
    Int(i32),
    Printer,
}

/// What a run of the stack machine gave.
struct StackRun {
    output: Vec<i32>,
    halted: bool,
    peak: usize,
    declared_stack: usize,
    declared_locals: usize,
    highest_slot: usize,
}

fn pop_int(stack: &mut Vec<Cell>) -> i32 {
    match stack.pop() {
        Some(Cell::Int(v)) => v,
        other => panic!("an integer is expected on the stack, found {:?}", other),
    }
}

/// Runs the text of a stack-machine program.
fn run_stack_machine(text: &str) -> StackRun {
    let head = ".method public static main([Ljava/lang/String;)V\n";
    let lines = body_lines(text, head, "\n\treturn\n.end method\n");
    let first: Vec<&str> = lines[0].split('\n').collect();
    let declared_stack: usize = first[0].strip_prefix(".limit stack ").unwrap().parse().unwrap();
    let declared_locals: usize = first[1].strip_prefix(".limit locals ").unwrap().parse().unwrap();
    let mut code: Vec<String> = lines[1..].to_vec();
    if !first[2].is_empty() {
        code.insert(0, String::from(first[2]));
    }
    let mut run = StackRun {
        output: vec![],
        halted: false,
        peak: 0,
        declared_stack,
        declared_locals,
        highest_slot: 0,
    };
    let mut stack: Vec<Cell> = vec![];
    let mut locals: HashMap<usize, i32> = HashMap::new();
    for line in code {
        let words: Vec<&str> = line.split(|c| c == ' ' || c == '_').collect();
        match words[0] {
            "iconst" if words[1] == "m1" => stack.push(Cell::Int(-1)),
            "iconst" | "bipush" | "sipush" | "ldc" => {
                stack.push(Cell::Int(words[1].parse().unwrap()))
            }
            "iload" => {
                let slot: usize = words[1].parse().unwrap();
                stack.push(Cell::Int(*locals.get(&slot).expect("a slot is stored before it is loaded")));
            }
            "istore" => {
                let slot: usize = words[1].parse().unwrap();
                run.highest_slot = run.highest_slot.max(slot);
                let v = pop_int(&mut stack);
                locals.insert(slot, v);
            }
            "getstatic" => {
                assert_eq!(line, "getstatic  java/lang/System/out Ljava/io/PrintStream;");
                stack.push(Cell::Printer)
            }
            "invokevirtual" => {
                assert_eq!(line, "invokevirtual java/io/PrintStream/println(I)V");
                let v = pop_int(&mut stack);
                assert_eq!(stack.pop(), Some(Cell::Printer));
                run.output.push(v);
            }
            "swap" => {
                let top = stack.pop().unwrap();
                let below = stack.pop().unwrap();
                stack.push(top);
                stack.push(below);
            }
            "iadd" | "isub" | "imul" | "idiv" => {
                let b = pop_int(&mut stack);
                let a = pop_int(&mut stack);
                let name = if words[0] == "idiv" { "idiv" } else { &words[0][1..] };
                match arith(name, a, b) {
                    Some(v) => stack.push(Cell::Int(v)),
                    None => {
                        run.halted = true;
                        return run;
                    }
                }
            }
            other => panic!("unknown instruction {}", other),
        }
        run.peak = run.peak.max(stack.len());
    }
    assert!(stack.is_empty());
    run
}

fn operand(regs: &HashMap<String, i32>, text: &str) -> i32 {
    if text.starts_with('%') {
        *regs.get(text).expect("a result is defined before it is used")
    } else {
        text.parse().unwrap()
    }
}

/// Runs the text of a register-machine program: what it printed, and whether
/// it stopped at a division by zero.
fn run_register_machine(text: &str) -> (Vec<i32>, bool) {
    let head = "declare void @printInt(i32)\ndefine i32 @main() {\n\t";
    let lines = body_lines(text, head, "\n\tret i32 0\n}\n");
    let mut output = vec![];
    let mut regs: HashMap<String, i32> = HashMap::new();
    let mut memory: HashMap<String, Option<i32>> = HashMap::new();
    for line in lines {
        if let Some(rest) = line.strip_prefix("store i32 ") {
            let (value, location) = rest.split_once(", i32* ").unwrap();
            let v = operand(&regs, value);
            let cell = memory.get_mut(location).expect("a location is allocated before a store");
            *cell = Some(v);
        } else if let Some(rest) = line.strip_prefix("call void @printInt(i32 ") {
            output.push(operand(&regs, rest.strip_suffix(")").unwrap()));
        } else {
            let (result, rest) = line.split_once(" = ").unwrap();
            if rest == "alloca i32" {
                assert!(memory.insert(String::from(result), None).is_none());
            } else if let Some(location) = rest.strip_prefix("load i32, i32* ") {
                let v = memory.get(location).unwrap().expect("a location is stored to before a load");
                assert!(regs.insert(String::from(result), v).is_none());
            } else {
                let (name, operands) = rest.split_once(" i32 ").unwrap();
                let (l, r) = operands.split_once(", ").unwrap();
                match arith(name, operand(&regs, l), operand(&regs, r)) {
                    Some(v) => assert!(regs.insert(String::from(result), v).is_none()),
                    None => return (output, true),
                }
            }
        }
    }
    (output, false)
}

/// Compiles a program with both backends, runs both texts, checks that they
/// print the same, and returns what they print.
fn printed(program: &Vec<Box<Stmt>>) -> Vec<i32> {
    assert!(fits(program));
    let stack = run_stack_machine(&jvm::compile(program, "Main").unwrap());
    let (output, halted) = run_register_machine(&llvm::compile(program).unwrap());
    assert_eq!(stack.output, output);
    assert_eq!(stack.halted, halted);
    assert!(stack.highest_slot < stack.declared_locals);
    output
}

#[test]
fn sum_is_stored_and_printed() {
    let program = vec![assign("x", op(num(2), Opcode::Add, num(2))), print(var("x"))];
    assert_eq!(printed(&program), vec![4]);
}

#[test]
fn difference_of_two_variables() {
    let program = vec![
        assign("a", num(10)),
        assign("b", num(3)),
        print(op(var("a"), Opcode::Sub, var("b"))),
    ];
    assert_eq!(printed(&program), vec![7]);
    let text = jvm::compile(&program, "Main").unwrap();
    assert!(text.contains("\n\tiload_1\n\tiload_2\n\tisub\n\t"));
}

#[test]
fn variable_read_twice_under_a_nested_subtraction() {
    let program = vec![
        assign("y", num(5)),
        print(op(var("y"), Opcode::Mul, op(var("y"), Opcode::Sub, num(1)))),
    ];
    assert_eq!(printed(&program), vec![20]);
    let text = jvm::compile(&program, "Main").unwrap();
    assert!(text.contains("\n\tistore_1\n\tiload_1\n\tiload_1\n\ticonst_1\n\tisub\n\timul\n\t"));
    let text = llvm::compile(&program).unwrap();
    assert!(text.contains("%y0 = load i32, i32* %loc_y\n\t%y1 = load i32, i32* %loc_y\n\t"));
}

#[test]
fn unassigned_variable_gives_no_text_from_either_backend() {
    let program = vec![print(var("z"))];
    assert_eq!(jvm::compile(&program, "Main"), Err(CompileError::UndeclaredVariable));
    assert_eq!(llvm::compile(&program), Err(CompileError::UndeclaredVariable));
}

#[test]
fn exchanged_operands_keep_their_order_in_the_result() {
    let program = vec![
        print(op(op(num(20), Opcode::Add, num(1)), Opcode::Sub, num(4))),
        print(op(op(num(20), Opcode::Add, num(1)), Opcode::Div, num(4))),
        print(op(num(4), Opcode::Sub, op(num(20), Opcode::Add, num(1)))),
        print(op(num(100), Opcode::Div, op(num(20), Opcode::Add, num(1)))),
        print(op(op(num(20), Opcode::Sub, num(1)), Opcode::Mul, num(4))),
    ];
    assert_eq!(printed(&program), vec![17, 5, -17, 4, 76]);
}

#[test]
fn both_machines_print_the_same_for_a_longer_program() {
    let program = vec![
        assign("a", num(7)),
        assign("b", op(var("a"), Opcode::Mul, var("a"))),
        assign("r", op(var("b"), Opcode::Sub, op(var("a"), Opcode::Div, num(2)))),
        print(var("r")),
        assign("a", op(op(var("r"), Opcode::Add, var("b")), Opcode::Sub, op(var("a"), Opcode::Mul, num(-3)))),
        print(op(var("a"), Opcode::Div, op(var("r"), Opcode::Sub, op(var("b"), Opcode::Sub, num(1))))),
        print(op(op(op(var("a"), Opcode::Sub, var("b")), Opcode::Sub, var("r")), Opcode::Sub, num(1000))),
        print(num(-1)),
    ];
    assert_eq!(printed(&program), vec![46, -58, -979, -1]);
}

#[test]
fn arithmetic_wraps_around() {
    let program = vec![
        print(op(num(i32::MAX), Opcode::Add, num(1))),
        print(op(num(i32::MIN), Opcode::Sub, num(1))),
        print(op(num(65536), Opcode::Mul, num(65536))),
        print(op(num(i32::MIN), Opcode::Div, num(-1))),
        print(op(num(-7), Opcode::Div, num(2))),
    ];
    assert_eq!(printed(&program), vec![i32::MIN, i32::MAX, 0, i32::MIN, -3]);
}

#[test]
fn both_machines_stop_at_a_division_by_zero() {
    let program = vec![
        print(num(1)),
        assign("z", num(0)),
        print(op(op(num(1), Opcode::Add, num(2)), Opcode::Sub, op(num(5), Opcode::Div, var("z")))),
        print(num(2)),
    ];
    assert_eq!(printed(&program), vec![1]);
    assert!(run_stack_machine(&jvm::compile(&program, "Main").unwrap()).halted);
}

#[test]
fn declared_limit_is_reached_where_the_needs_meet() {
    let program = vec![
        assign("a", num(1)),
        assign("b", num(2)),
        assign("c", num(3)),
        assign("x", op(op(var("a"), Opcode::Add, var("b")), Opcode::Add, var("c"))),
    ];
    let run = run_stack_machine(&jvm::compile(&program, "Main").unwrap());
    assert_eq!(run.declared_stack, 3);
    assert_eq!(run.peak, 3);
    let empty = run_stack_machine(&jvm::compile(&vec![], "Main").unwrap());
    assert_eq!((empty.declared_stack, empty.peak), (0, 0));
}

#[test]
fn stack_height_follows_the_order_of_evaluation() {
    let leaf = run_stack_machine(&jvm::compile(&vec![print(num(1))], "Main").unwrap());
    assert_eq!((leaf.declared_stack, leaf.peak), (3, 2));
    let store = run_stack_machine(&jvm::compile(&vec![assign("x", num(2))], "Main").unwrap());
    assert_eq!((store.declared_stack, store.peak), (2, 1));
    let chain = op(num(1), Opcode::Add, op(num(2), Opcode::Add, op(num(3), Opcode::Add, num(4))));
    let run = run_stack_machine(&jvm::compile(&vec![assign("x", chain)], "Main").unwrap());
    assert_eq!((run.declared_stack, run.peak), (3, 4));
}

#[test]
fn size_of_an_expression_is_taken_off_a_budget() {
    let e = op(num(1), Opcode::Add, op(var("a"), Opcode::Mul, num(3)));
    assert_eq!(spend(&e, 5), Some(0));
    assert_eq!(spend(&e, 12), Some(7));
    assert_eq!(spend(&e, 4), None);
    assert_eq!(spend(&Expr::Number(1), 0), None);
    assert_eq!(spend(&Expr::Number(1), 1), Some(0));
}

#[test]
fn programs_of_any_ordinary_size_fit() {
    assert!(fits(&vec![]));
    let mut program = vec![];
    for i in 0..1000 {
        program.push(assign("v", op(num(i), Opcode::Add, var("v"))));
    }
    assert!(fits(&program));
}

#[test]
fn names_that_could_be_read_alike_give_distinct_results() {
    let program = vec![
        assign("r", num(1)),
        assign("var__r", num(2)),
        print(op(var("r"), Opcode::Add, var("var__r"))),
    ];
    assert_eq!(printed(&program), vec![3]);
    let program = vec![
        assign("loc_a", num(5)),
        assign("a0", num(7)),
        print(op(var("loc_a"), Opcode::Sub, var("a0"))),
    ];
    assert_eq!(printed(&program), vec![-2]);
}

#[test]
fn counter_is_told_from_a_digit_at_the_end_of_a_name() {
    let mut sum = var("x1");
    for _ in 0..11 {
        sum = op(sum, Opcode::Add, var("x"));
    }
    let mut registers = var("r1");
    for _ in 0..11 {
        registers = op(registers, Opcode::Mul, num(2));
    }
    let program = vec![
        assign("x", num(1)),
        assign("x1", num(100)),
        assign("r1", num(3)),
        print(sum),
        print(registers),
        print(op(var("r1"), Opcode::Sub, var("x1"))),
    ];
    assert_eq!(printed(&program), vec![111, 6144, -97]);
    let text = llvm::compile(&program).unwrap();
    assert!(text.contains("%x10 = load i32, i32* %loc_x\n"));
    assert!(text.contains("%num__x1_0 = load i32, i32* %loc_x1\n"));
    assert!(text.contains("%num__r1_0 = load i32, i32* %loc_r1\n"));
}
