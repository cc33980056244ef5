use compiler::ast::{BlockItem, Expression, Program, Statement};
use compiler::lexer::{Lexer, Token};
use compiler::parser::{Expectation, ParseError, Parser};

fn tokens_of(src: &str) -> Vec<Token> {
    let mut lexer = Lexer::default();
    lexer.try_lex(src.to_string()).unwrap();
    lexer.tokens
}

fn parse(src: &str) -> Result<Program, ParseError> {
    let mut parser = Parser::new(tokens_of(src));
    parser.check_program()?;
    Ok(parser.parse_program(&"test.c".to_string()))
}

fn error_of(src: &str) -> ParseError {
    match parse(src) {
        Ok(_) => panic!("parsed: {}", src),
        Err(e) => e,
    }
}

/// The printed body of the only function of `src`.
fn body_of(src: &str) -> String {
    let program = parse(src).unwrap();
    assert_eq!(program.child_functions.len(), 1);
    program.child_functions[0].print()
}

fn returned(src: &str) -> String {
    body_of(&format!("int main() {{ return {}; }}", src))
}

#[test]
fn parses_a_minimal_program() {
    let mut program = parse("int main() {\n  return 2;\n}").unwrap();
    assert_eq!(program.name, "test.c");
    assert_eq!(program.pretty_ast, "");
    assert_eq!(program.child_functions.len(), 1);
    assert_eq!(program.child_functions[0].name, "main");
    assert_eq!(program.child_functions[0].child_block_items.len(), 1);
    assert!(matches!(
        program.child_functions[0].child_block_items[0],
        BlockItem::Stmt(Statement::Ret(Expression::LiteralInt(2)))
    ));
    program.build_pretty_ast();
    assert_eq!(program.pretty_ast, "PROGRAM test.c\nFUNC main:\n  RETURN EXPR[2]\n\n");
}

#[test]
fn multiplication_binds_tighter_than_addition() {
    assert_eq!(returned("1 + 2 * 3"), "FUNC main:\n  RETURN EXPR[(1 + (2 * 3))]\n\n");
    assert_eq!(returned("1 * 2 + 3"), "FUNC main:\n  RETURN EXPR[((1 * 2) + 3)]\n\n");
}

#[test]
fn operators_of_one_level_group_to_the_left() {
    assert_eq!(returned("8 - 3 - 2"), "FUNC main:\n  RETURN EXPR[((8 - 3) - 2)]\n\n");
    assert_eq!(returned("8 / 4 / 2"), "FUNC main:\n  RETURN EXPR[((8 / 4) / 2)]\n\n");
    assert_eq!(returned("1 || 0 || 1"), "FUNC main:\n  RETURN EXPR[((1 || 0) || 1)]\n\n");
}

#[test]
fn parentheses_override_precedence() {
    assert_eq!(returned("(1 + 2) * 3"), "FUNC main:\n  RETURN EXPR[((1 + 2) * 3)]\n\n");
}

#[test]
fn unary_operators_nest() {
    assert_eq!(returned("-~!5"), "FUNC main:\n  RETURN EXPR[-<~<!<5>>>]\n\n");
    assert_eq!(returned("-2 * 3"), "FUNC main:\n  RETURN EXPR[(-<2> * 3)]\n\n");
}

#[test]
fn and_binds_tighter_than_or() {
    assert_eq!(returned("1 || 0 && 2"), "FUNC main:\n  RETURN EXPR[(1 || (0 && 2))]\n\n");
}

#[test]
fn relational_binds_tighter_than_equality() {
    assert_eq!(
        returned("1 < 2 == 3 >= 4"),
        "FUNC main:\n  RETURN EXPR[((1 < 2) == (3 >= 4))]\n\n"
    );
    assert_eq!(returned("1 != 2 < 3"), "FUNC main:\n  RETURN EXPR[(1 != (2 < 3))]\n\n");
    assert_eq!(
        returned("1 + 1 <= 2 && 3 > 2"),
        "FUNC main:\n  RETURN EXPR[(((1 + 1) <= 2) && (3 > 2))]\n\n"
    );
}

#[test]
fn declarations_and_assignments() {
    assert_eq!(
        body_of("int main() { int a; int b = 2; a = b = 3; return a; }"),
        "FUNC main:\n  DECLARE VAR[a]\n  DECLARE VAR[b] = EXPR[2]\n  EXPR[a = b = 3]\n\n  RETURN EXPR[a]\n\n"
    );
}

#[test]
fn body_without_return() {
    assert_eq!(body_of("int main() { 1 + 2; }"), "FUNC main:\n  EXPR[(1 + 2)]\n\n");
    assert_eq!(body_of("int main() { }"), "FUNC main:\n");
}

#[test]
fn several_functions_in_order() {
    let mut program = parse("int f() { return 1; } int main() { return 2; }").unwrap();
    assert_eq!(program.child_functions.len(), 2);
    assert_eq!(program.child_functions[0].name, "f");
    assert_eq!(program.child_functions[1].name, "main");
    program.build_pretty_ast();
    assert_eq!(
        program.pretty_ast,
        "PROGRAM test.c\nFUNC f:\n  RETURN EXPR[1]\n\nFUNC main:\n  RETURN EXPR[2]\n\n"
    );
}

#[test]
fn empty_source_is_an_empty_program() {
    let program = parse("").unwrap();
    assert!(program.child_functions.is_empty());
    assert_eq!(program.name, "test.c");
}

#[test]
fn function_body_ends_at_its_return() {
    let e = error_of("int main() { return 1; return 2; }");
    assert!(matches!(
        e,
        ParseError::Expected(Token::CloseBrace, Expectation::FunctionEnd, Some(Token::Keyword(_)))
    ));
    assert_eq!(e.message(), "Expected '}' for function end, found: KEYWORD_RETURN");
}

#[test]
fn function_must_start_with_int() {
    let e = error_of("main() { return 1; }");
    assert!(matches!(e, ParseError::Expected(Token::Keyword(_), Expectation::FunctionType, Some(_))));
    assert_eq!(e.message(), "Expected 'KEYWORD_INT' for function type, found: ID(main)");
}

#[test]
fn function_needs_a_name() {
    let e = error_of("int 5() { return 1; }");
    assert!(matches!(e, ParseError::FunctionName));
    assert_eq!(e.message(), "Expected function name");
    assert!(matches!(error_of("int"), ParseError::FunctionName));
}

#[test]
fn missing_parameter_list() {
    let e = error_of("int main");
    assert!(matches!(e, ParseError::Expected(Token::OpenParen, Expectation::FunctionParameters, None)));
    assert_eq!(e.message(), "Expected '(' for function parameters, found: end of file (EOF)");
    let e = error_of("int main( { return 1; }");
    assert_eq!(e.message(), "Expected ')' for function parameters, found: {");
}

#[test]
fn missing_opening_brace() {
    let e = error_of("int main() return 1; }");
    assert_eq!(e.message(), "Expected '{' for function start, found: KEYWORD_RETURN");
}

#[test]
fn declaration_needs_a_name() {
    let e = error_of("int main() { int 5; }");
    assert!(matches!(e, ParseError::VariableName(Some(Token::LiteralInt(5)))));
    assert_eq!(e.message(), "Expected variable name (string), found: INT(5)");
    let e = error_of("int main() { int");
    assert!(matches!(e, ParseError::VariableName(None)));
    assert_eq!(
        e.message(),
        "Expected variable name (string) in declaration, found EOF (End of File)"
    );
}

#[test]
fn declaration_must_end() {
    let e = error_of("int main() { int a + 1; }");
    assert!(matches!(e, ParseError::DeclarationEnd(Some(Token::Plus))));
    assert_eq!(e.message(), "Expected ';' after statement, found: +");
    let e = error_of("int main() { int a");
    assert!(matches!(e, ParseError::DeclarationEnd(None)));
    assert_eq!(e.message(), "Expected ';' after statement, found EOF (End of File)");
}

#[test]
fn body_cut_short() {
    let e = error_of("int main() {");
    assert!(matches!(e, ParseError::StatementEof));
    assert_eq!(e.message(), "Expected statement, found EOF (End of File)");
}

#[test]
fn missing_factor() {
    let e = error_of("int main() { return ; }");
    assert!(matches!(e, ParseError::Factor(Some(Token::Semicolon))));
    assert_eq!(e.message(), "Expected factor, found: ;");
    let e = error_of("int main() { return");
    assert!(matches!(e, ParseError::Factor(None)));
    assert_eq!(e.message(), "Expected factor, found EOF");
    let e = error_of("int main() { return 1 + * 2; }");
    assert_eq!(e.message(), "Expected factor, found: *");
}

#[test]
fn missing_semicolons() {
    assert_eq!(
        error_of("int main() { return 1 }").message(),
        "Expected ';' after return statement, found: }"
    );
    assert_eq!(
        error_of("int main() { 1 + 2 }").message(),
        "Expected ';' after expression statement, found: }"
    );
    assert_eq!(
        error_of("int main() { int a = 1 }").message(),
        "Expected ';' after variable initialization, found: }"
    );
}

#[test]
fn unclosed_parenthesis() {
    let e = error_of("int main() { return (1 + 2; }");
    assert!(matches!(
        e,
        ParseError::Expected(Token::CloseParen, Expectation::AfterExpression, Some(Token::Semicolon))
    ));
    assert_eq!(e.message(), "Expected ')' after expression, found: ;");
}

#[test]
fn assignment_needs_a_name_on_the_left() {
    // `1 = 2` is no assignment: `1` is a factor, then `=` cannot follow it.
    assert_eq!(
        error_of("int main() { 1 = 2; }").message(),
        "Expected ';' after expression statement, found: ="
    );
}
