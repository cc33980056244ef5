use compiler::ast::{BinaryOp, BlockItem, Expression, Function, LogicalOp, Program, Statement, UnaryOp};
use compiler::text::{append_i32, append_nat};

fn lit(v: i32) -> Box<Expression> {
    Box::new(Expression::LiteralInt(v))
}

fn var(name: &str) -> Box<Expression> {
    Box::new(Expression::Var(name.to_string()))
}

#[test]
fn prints_literals_and_variables() {
    assert_eq!(Expression::LiteralInt(42).print(), "42");
    assert_eq!(Expression::LiteralInt(-5).print(), "-5");
    assert_eq!(Expression::LiteralInt(0).print(), "0");
    assert_eq!(Expression::LiteralInt(i32::MIN).print(), "-2147483648");
    assert_eq!(Expression::Var("count".to_string()).print(), "count");
}

#[test]
fn prints_unary_operations() {
    assert_eq!(Expression::UnOp(UnaryOp::Negate, lit(1)).print(), "-<1>");
    assert_eq!(Expression::UnOp(UnaryOp::BitwiseNot, lit(2)).print(), "~<2>");
    assert_eq!(Expression::UnOp(UnaryOp::LogicalNot, var("x")).print(), "!<x>");
}

#[test]
fn prints_binary_operations_in_parentheses() {
    let cases = [
        (BinaryOp::Add, "(1 + 2)"),
        (BinaryOp::Subtract, "(1 - 2)"),
        (BinaryOp::Multiply, "(1 * 2)"),
        (BinaryOp::Divide, "(1 / 2)"),
        (BinaryOp::Less, "(1 < 2)"),
        (BinaryOp::LessEqual, "(1 <= 2)"),
        (BinaryOp::Greater, "(1 > 2)"),
        (BinaryOp::GreaterEqual, "(1 >= 2)"),
        (BinaryOp::Equal, "(1 == 2)"),
        (BinaryOp::Unequal, "(1 != 2)"),
    ];
    for (op, text) in cases {
        assert_eq!(Expression::BinOp(op, lit(1), lit(2)).print(), text);
    }
}

#[test]
fn prints_logical_operations_and_assignments() {
    assert_eq!(Expression::LogOp(LogicalOp::And, var("a"), lit(0)).print(), "(a && 0)");
    assert_eq!(Expression::LogOp(LogicalOp::Or, var("a"), lit(0)).print(), "(a || 0)");
    let nested = Expression::Assign(
        "a".to_string(),
        Box::new(Expression::Assign("b".to_string(), lit(3))),
    );
    assert_eq!(nested.print(), "a = b = 3");
}

#[test]
fn prints_nested_expressions() {
    let e = Expression::BinOp(
        BinaryOp::Multiply,
        Box::new(Expression::UnOp(UnaryOp::Negate, Box::new(Expression::BinOp(BinaryOp::Add, lit(1), var("y"))))),
        lit(3),
    );
    assert_eq!(e.print(), "(-<(1 + y)> * 3)");
}

#[test]
fn prints_statements() {
    assert_eq!(Statement::Ret(Expression::LiteralInt(2)).print(), "  RETURN EXPR[2]\n");
    assert_eq!(Statement::Expr(Expression::Var("x".to_string())).print(), "  EXPR[x]\n");
}

#[test]
fn prints_conditional_statements() {
    let without_else = Statement::Cond(
        Expression::Var("c".to_string()),
        Box::new(Statement::Ret(Expression::LiteralInt(1))),
        None,
    );
    assert_eq!(without_else.print(), "  IF(c)    EXPR[  RETURN EXPR[1]\n]\n");
    let with_else = Statement::Cond(
        Expression::Var("c".to_string()),
        Box::new(Statement::Ret(Expression::LiteralInt(1))),
        Some(Box::new(Statement::Expr(Expression::LiteralInt(2)))),
    );
    assert_eq!(
        with_else.print(),
        "  IF(c)    EXPR[  RETURN EXPR[1]\n]  ELSE\n    EXPR[  EXPR[2]\n]\n"
    );
}

#[test]
fn prints_block_items() {
    assert_eq!(BlockItem::Decl("a".to_string(), None).print(), "  DECLARE VAR[a]\n");
    assert_eq!(
        BlockItem::Decl("b".to_string(), Some(Expression::LiteralInt(7))).print(),
        "  DECLARE VAR[b] = EXPR[7]\n"
    );
    assert_eq!(
        BlockItem::Stmt(Statement::Ret(Expression::LiteralInt(0))).print(),
        "  RETURN EXPR[0]\n\n"
    );
}

#[test]
fn prints_functions() {
    let f = Function {
        name: "main".to_string(),
        child_block_items: vec![
            BlockItem::Decl("a".to_string(), Some(Expression::LiteralInt(1))),
            BlockItem::Stmt(Statement::Ret(Expression::Var("a".to_string()))),
        ],
    };
    assert_eq!(f.print(), "FUNC main:\n  DECLARE VAR[a] = EXPR[1]\n  RETURN EXPR[a]\n\n");
    let empty = Function { name: "f".to_string(), child_block_items: vec![] };
    assert_eq!(empty.print(), "FUNC f:\n");
}

#[test]
fn new_program_is_empty() {
    let p = Program::new("prog.c".to_string());
    assert_eq!(p.name, "prog.c");
    assert!(p.child_functions.is_empty());
    assert_eq!(p.pretty_ast, "");
}

#[test]
fn pretty_tree_is_appended() {
    let mut p = Program::new("x.c".to_string());
    p.child_functions.push(Function {
        name: "main".to_string(),
        child_block_items: vec![BlockItem::Stmt(Statement::Ret(Expression::LiteralInt(2)))],
    });
    p.build_pretty_ast();
    let once = "PROGRAM x.c\nFUNC main:\n  RETURN EXPR[2]\n\n";
    assert_eq!(p.pretty_ast, once);
    p.build_pretty_ast();
    assert_eq!(p.pretty_ast, format!("{}{}", once, once));
    assert_eq!(p.child_functions.len(), 1);
}

#[test]
fn pretty_tree_of_an_empty_program() {
    let mut p = Program::new("e.c".to_string());
    p.build_pretty_ast();
    assert_eq!(p.pretty_ast, "PROGRAM e.c\n");
}

#[test]
fn decimal_text_of_integers() {
    let mut s = String::from("n=");
    append_nat(&mut s, 0);
    assert_eq!(s, "n=0");
    let mut s = String::new();
    append_nat(&mut s, 4294967295);
    assert_eq!(s, "4294967295");
    let mut s = String::new();
    append_i32(&mut s, i32::MIN);
    assert_eq!(s, "-2147483648");
    let mut s = String::new();
    append_i32(&mut s, i32::MAX);
    assert_eq!(s, "2147483647");
    let mut s = String::new();
    append_i32(&mut s, -70);
    assert_eq!(s, "-70");
    let mut s = String::new();
    append_i32(&mut s, 1000);
    assert_eq!(s, "1000");
}
