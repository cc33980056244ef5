use compiler::ast::{BinaryOp, BlockItem, Expression, Function, Program, Statement};
use compiler::generator::{GenError, Generator};
use compiler::lexer::Lexer;
use compiler::parser::Parser;

const NOTE: &str = ".section .note.GNU-stack,\"\",@progbits\n";

fn program_of(src: &str) -> Program {
    let mut lexer = Lexer::default();
    lexer.try_lex(src.to_string()).unwrap();
    let mut parser = Parser::new(lexer.tokens);
    parser.check_program().unwrap();
    parser.parse_program(&"test.c".to_string())
}

/// Compiles the program of the generator, after checking that it compiles.
fn compile(generator: &mut Generator) -> Result<String, GenError> {
    generator.check_program()?;
    Ok(generator.generate_program())
}

fn generator_of(src: &str) -> Generator {
    Generator { ast: program_of(src), jump_counter: 0, stack_index: -8 }
}

fn asm_of(src: &str) -> String {
    compile(&mut generator_of(src)).unwrap()
}

fn error_of(src: &str) -> GenError {
    match compile(&mut generator_of(src)) {
        Ok(text) => panic!("compiled: {}", text),
        Err(e) => e,
    }
}

/// The text of a function with the given body code.
fn function_text(name: &str, body: &str) -> String {
    format!(
        ".globl {0}\n{0}:\n  push %rbp\n  mov %rsp, %rbp\n{1}  mov %rbp, %rsp\n  pop %rbp\n  ret\n",
        name, body
    )
}

/// The text of a program made of `main` with the given body code.
fn main_text(body: &str) -> String {
    function_text("main", body) + NOTE
}

fn returning(expr: &str) -> String {
    asm_of(&format!("int main() {{ return {}; }}", expr))
}

fn or_head(n: i32) -> String {
    format!(
        "  push %rax\n  pop %rcx\n  cmpl $0, %ecx\n  je _clause2_{0}\n  movl $1, %eax\n  jmp _end_{0}\n  _clause2_{0}:\n",
        n
    )
}

fn and_head(n: i32) -> String {
    format!(
        "  push %rax\n  pop %rcx\n  cmpl $0, %ecx\n  jne _clause2_{0}\n  movl $0, %eax\n  jmp _end_{0}\n  _clause2_{0}:\n",
        n
    )
}

fn logic_tail(n: i32) -> String {
    format!("  cmpl $0, %eax\n  movl $0, %eax\n  setne %al\n  _end_{}:\n", n)
}

fn binary(left: i32, right: i32, op_code: &str) -> String {
    format!(
        "  movl ${}, %eax\n  push %rax\n  movl ${}, %eax\n  pop %rcx\n{}",
        left, right, op_code
    )
}

#[test]
fn returns_a_literal() {
    assert_eq!(
        returning("2"),
        ".globl main\nmain:\n  push %rbp\n  mov %rsp, %rbp\n  movl $2, %eax\n  mov %rbp, %rsp\n  pop %rbp\n  ret\n.section .note.GNU-stack,\"\",@progbits\n"
    );
}

#[test]
fn empty_program_is_only_the_note() {
    assert_eq!(asm_of(""), NOTE);
}

#[test]
fn unary_operators() {
    assert_eq!(returning("-5"), main_text("  movl $5, %eax\n  negl %eax\n"));
    assert_eq!(returning("~1"), main_text("  movl $1, %eax\n  notl %eax\n"));
    assert_eq!(
        returning("!0"),
        main_text("  movl $0, %eax\n  cmpl $0, %eax\n  movl $0, %eax\n  sete %al\n")
    );
}

#[test]
fn arithmetic_operators() {
    assert_eq!(returning("1 + 2"), main_text(&binary(1, 2, "  addl %ecx, %eax\n")));
    assert_eq!(
        returning("5 - 3"),
        main_text(&binary(5, 3, "  subl %eax, %ecx\n  movl %ecx, %eax\n"))
    );
    assert_eq!(returning("2 * 3"), main_text(&binary(2, 3, "  imull %ecx, %eax\n")));
    assert_eq!(
        returning("6 / 3"),
        main_text(&binary(
            6,
            3,
            "  push %rcx\n  movl %eax, %ecx\n  pop %rax\n  cdq\n  idivl %ecx\n"
        ))
    );
}

#[test]
fn comparison_operators() {
    let cmp = |set: &str| format!("  cmpl %eax, %ecx\n  movl $0, %eax\n  {} %al\n", set);
    assert_eq!(returning("1 < 2"), main_text(&binary(1, 2, &cmp("setl"))));
    assert_eq!(returning("1 <= 2"), main_text(&binary(1, 2, &cmp("setle"))));
    assert_eq!(returning("1 > 2"), main_text(&binary(1, 2, &cmp("setg"))));
    assert_eq!(returning("1 >= 2"), main_text(&binary(1, 2, &cmp("setge"))));
    assert_eq!(returning("1 == 2"), main_text(&binary(1, 2, &cmp("sete"))));
    assert_eq!(returning("1 != 2"), main_text(&binary(1, 2, &cmp("setne"))));
}

#[test]
fn unequal_operator() {
    let ret = Expression::BinOp(
        BinaryOp::Unequal,
        Box::new(Expression::LiteralInt(1)),
        Box::new(Expression::LiteralInt(2)),
    );
    let mut program = Program::new("p".to_string());
    program.child_functions.push(Function {
        name: "main".to_string(),
        child_block_items: vec![BlockItem::Stmt(Statement::Ret(ret))],
    });
    let mut generator = Generator { ast: program, jump_counter: 0, stack_index: -8 };
    assert_eq!(
        compile(&mut generator).unwrap(),
        main_text(&binary(1, 2, "  cmpl %eax, %ecx\n  movl $0, %eax\n  setne %al\n"))
    );
}

#[test]
fn precedence_shapes_the_code() {
    let product = "  movl $2, %eax\n  push %rax\n  movl $3, %eax\n  pop %rcx\n  imull %ecx, %eax\n";
    assert_eq!(
        returning("1 + 2 * 3"),
        main_text(&format!(
            "  movl $1, %eax\n  push %rax\n{}  pop %rcx\n  addl %ecx, %eax\n",
            product
        ))
    );
}

#[test]
fn logical_or_and_and() {
    let mut generator = generator_of("int main() { return 1 || 0; }");
    assert_eq!(
        compile(&mut generator).unwrap(),
        main_text(&format!("  movl $1, %eax\n{}  movl $0, %eax\n{}", or_head(0), logic_tail(0)))
    );
    assert_eq!(generator.jump_counter, 1);
    assert_eq!(
        returning("1 && 0"),
        main_text(&format!("  movl $1, %eax\n{}  movl $0, %eax\n{}", and_head(0), logic_tail(0)))
    );
}

#[test]
fn logical_operation_takes_its_number_before_its_second_operand() {
    let mut generator = generator_of("int main() { return 1 || 0 && 2; }");
    assert_eq!(
        compile(&mut generator).unwrap(),
        main_text(&format!(
            "  movl $1, %eax\n{}  movl $0, %eax\n{}  movl $2, %eax\n{}{}",
            or_head(0),
            and_head(1),
            logic_tail(1),
            logic_tail(0)
        ))
    );
    assert_eq!(generator.jump_counter, 2);
}

#[test]
fn first_operand_numbers_come_first() {
    let mut generator = generator_of("int main() { return 1 && 0 || 1; }");
    assert_eq!(
        compile(&mut generator).unwrap(),
        main_text(&format!(
            "  movl $1, %eax\n{}  movl $0, %eax\n{}{}  movl $1, %eax\n{}",
            and_head(0),
            logic_tail(0),
            or_head(1),
            logic_tail(1)
        ))
    );
    assert_eq!(generator.jump_counter, 2);
}

#[test]
fn variables_live_in_stack_slots() {
    let mut generator = generator_of("int main() { int a = 5; int b; b = a + 1; return b; }");
    let body = [
        "  movl $5, %eax\n  push %rax\n",
        "  movl $0, %eax\n  push %rax\n",
        "  movl -8(%rbp), %eax\n  push %rax\n  movl $1, %eax\n  pop %rcx\n  addl %ecx, %eax\n",
        "  movl %eax, -16(%rbp)\n",
        "  movl -16(%rbp), %eax\n",
    ]
    .concat();
    assert_eq!(compile(&mut generator).unwrap(), main_text(&body));
    assert_eq!(generator.stack_index, -24);
    assert_eq!(generator.jump_counter, 0);
}

#[test]
fn body_without_return_returns_zero() {
    assert_eq!(
        asm_of("int main() { 7; }"),
        main_text("  movl $7, %eax\n  movl $0, %eax\n")
    );
    assert_eq!(asm_of("int main() { }"), main_text("  movl $0, %eax\n"));
}

#[test]
fn conditional_statement_gives_no_code() {
    let cond = Statement::Cond(
        Expression::LiteralInt(1),
        Box::new(Statement::Ret(Expression::LiteralInt(2))),
        None,
    );
    let mut program = Program::new("p".to_string());
    program.child_functions.push(Function {
        name: "main".to_string(),
        child_block_items: vec![BlockItem::Stmt(cond)],
    });
    let mut generator = Generator { ast: program, jump_counter: 0, stack_index: -8 };
    assert_eq!(compile(&mut generator).unwrap(), main_text("  movl $0, %eax\n"));
}

#[test]
fn counters_run_on_through_the_functions() {
    let src = "int f() { int x = 1; return x || 0; } int main() { int y; return y && 1; }";
    let mut generator = generator_of(src);
    let f_body = format!(
        "  movl $1, %eax\n  push %rax\n  movl -8(%rbp), %eax\n{}  movl $0, %eax\n{}",
        or_head(0),
        logic_tail(0)
    );
    let main_body = format!(
        "  movl $0, %eax\n  push %rax\n  movl -16(%rbp), %eax\n{}  movl $1, %eax\n{}",
        and_head(1),
        logic_tail(1)
    );
    assert_eq!(
        compile(&mut generator).unwrap(),
        function_text("f", &f_body) + &function_text("main", &main_body) + NOTE
    );
    assert_eq!(generator.jump_counter, 2);
    assert_eq!(generator.stack_index, -24);
}

#[test]
fn generator_starts_from_its_counters() {
    let mut generator = generator_of("int main() { int a; return a || 1; }");
    generator.jump_counter = 40;
    generator.stack_index = -64;
    let body = format!(
        "  movl $0, %eax\n  push %rax\n  movl -64(%rbp), %eax\n{}  movl $1, %eax\n{}",
        or_head(40),
        logic_tail(40)
    );
    assert_eq!(compile(&mut generator).unwrap(), main_text(&body));
    assert_eq!(generator.jump_counter, 41);
    assert_eq!(generator.stack_index, -72);
}

#[test]
fn redeclaration_is_an_error() {
    let e = error_of("int main() { int a; int a = 2; return a; }");
    assert!(matches!(&e, GenError::Redeclared(name) if name == "a"));
    assert_eq!(e.message(), "Variable 'a' has already been declared");
}

#[test]
fn undeclared_variable_is_an_error() {
    let e = error_of("int main() { return x; }");
    assert!(matches!(&e, GenError::Undeclared(name) if name == "x"));
    assert_eq!(e.message(), "Assigning variable 'x' which has not been declared yet");
    let e = error_of("int main() { y = 3; return 0; }");
    assert!(matches!(&e, GenError::Undeclared(name) if name == "y"));
    let e = error_of("int main() { int z = z; return z; }");
    assert!(matches!(&e, GenError::Undeclared(name) if name == "z"));
}

#[test]
fn variables_do_not_cross_functions() {
    let e = error_of("int f() { int a; return a; } int main() { return a; }");
    assert!(matches!(&e, GenError::Undeclared(name) if name == "a"));
}

#[test]
fn jump_counter_overflow_is_an_error() {
    let mut generator = generator_of("int main() { return 1 || 0; }");
    generator.jump_counter = i32::MAX;
    let e = compile(&mut generator).unwrap_err();
    assert!(matches!(e, GenError::JumpCounterOverflow));
    assert_eq!(e.message(), "attempt to add with overflow");
}

#[test]
fn stack_index_overflow_is_an_error() {
    let mut generator = generator_of("int main() { int a; return 0; }");
    generator.stack_index = i32::MIN + 7;
    let e = compile(&mut generator).unwrap_err();
    assert!(matches!(e, GenError::StackIndexOverflow));
    assert_eq!(e.message(), "attempt to subtract with overflow");
    let mut generator = generator_of("int main() { int a; return 0; }");
    generator.stack_index = i32::MIN + 8;
    assert!(compile(&mut generator).is_ok());
    assert_eq!(generator.stack_index, i32::MIN);
}
