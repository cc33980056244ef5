use compiler::lexer::{parse_i32_text, tokens_from_captures, Keyword, LexError, Lexer, Token, TOKEN_GROUPS};

fn lexed(src: &str) -> Lexer {
    let mut lexer = Lexer::default();
    lexer.try_lex(src.to_string()).unwrap();
    lexer
}

fn texts(tokens: &[Token]) -> Vec<String> {
    tokens.iter().map(|t| t.to_string()).collect()
}

fn flags_for(group: usize) -> Vec<bool> {
    let mut flags = vec![false; TOKEN_GROUPS];
    flags[group] = true;
    flags
}

#[test]
fn lexes_a_minimal_function() {
    let lexer = lexed("int main() {\n  return 2;\n}");
    assert_eq!(
        texts(&lexer.tokens),
        vec!["KEYWORD_INT", "ID(main)", "(", ")", "{", "KEYWORD_RETURN", "INT(2)", ";", "}"]
    );
    assert_eq!(
        lexer.tokens_literal,
        vec!["int", "main", "(", ")", "{", "return", "2", ";", "}"]
    );
    assert!(matches!(lexer.tokens[0], Token::Keyword(Keyword::INT)));
    assert!(matches!(&lexer.tokens[1], Token::Identifier(name) if name == "main"));
    assert!(matches!(lexer.tokens[6], Token::LiteralInt(2)));
}

#[test]
fn lexes_every_operator() {
    let lexer = lexed("<= >= < > == && || = + - * / ~ ! !=");
    assert_eq!(
        texts(&lexer.tokens),
        vec!["<=", ">=", "<", ">", "==", "&&", "||", "=", "+", "-", "*", "/", "~", "!", "!="]
    );
    assert!(matches!(lexer.tokens[0], Token::LessEqual));
    assert!(matches!(lexer.tokens[4], Token::Equal));
    assert!(matches!(lexer.tokens[7], Token::Assign));
    assert!(matches!(lexer.tokens[13], Token::Exclamation));
}

#[test]
fn combined_symbols_come_first() {
    let lexer = lexed("a != b !c !=d");
    assert_eq!(texts(&lexer.tokens), vec!["ID(a)", "!=", "ID(b)", "!", "ID(c)", "!=", "ID(d)"]);
    assert_eq!(lexer.tokens_literal, vec!["a", "!=", "b", "!", "c", "!=", "d"]);
    assert!(matches!(lexer.tokens[1], Token::Unequal));
}

#[test]
fn literals_occur_in_order_in_the_source() {
    let src = "int  main(){return 40+2;}";
    let lexer = lexed(src);
    let mut rest = src;
    for lit in &lexer.tokens_literal {
        let at = rest.find(lit.as_str()).unwrap();
        rest = &rest[at + lit.len()..];
    }
    assert_eq!(rest, "");
    assert_eq!(lexer.tokens_literal.concat(), "intmain(){return40+2;}");
}

#[test]
fn keywords_need_a_word_boundary() {
    let lexer = lexed("integer returned int return x1");
    assert_eq!(
        texts(&lexer.tokens),
        vec!["ID(integer)", "ID(returned)", "KEYWORD_INT", "KEYWORD_RETURN", "ID(x1)"]
    );
}

#[test]
fn unknown_characters_are_skipped() {
    let lexer = lexed("@ $ 5 ?");
    assert_eq!(texts(&lexer.tokens), vec!["INT(5)"]);
    assert_eq!(lexer.tokens_literal, vec!["5"]);
}

#[test]
fn empty_source_gives_no_tokens() {
    let lexer = lexed("  \n\t ");
    assert!(lexer.tokens.is_empty());
    assert!(lexer.tokens_literal.is_empty());
}

#[test]
fn largest_literal_is_read() {
    let lexer = lexed("2147483647");
    assert!(matches!(lexer.tokens[0], Token::LiteralInt(2147483647)));
}

#[test]
fn failed_lexing_leaves_no_tokens() {
    let mut lexer = Lexer::default();
    lexer.lex("int a;".to_string());
    assert_eq!(lexer.try_lex("1 99999999999".to_string()), Err(LexError::NotANumber));
    assert!(lexer.tokens.is_empty());
    assert!(lexer.tokens_literal.is_empty());
}

#[test]
fn literal_out_of_range_is_an_error() {
    let mut lexer = Lexer::default();
    assert_eq!(lexer.try_lex("return 2147483648;".to_string()), Err(LexError::NotANumber));
    assert!(lexer.tokens.is_empty());
    assert!(lexer.tokens_literal.is_empty());
}

#[test]
fn lexing_again_replaces_the_tokens() {
    let mut lexer = Lexer::default();
    lexer.lex("int a;".to_string());
    assert_eq!(lexer.tokens.len(), 3);
    lexer.lex("7".to_string());
    assert_eq!(texts(&lexer.tokens), vec!["INT(7)"]);
    assert_eq!(lexer.tokens_literal, vec!["7"]);
}

#[test]
fn parses_decimal_i32_text() {
    assert_eq!(parse_i32_text("42"), Some(42));
    assert_eq!(parse_i32_text("007"), Some(7));
    assert_eq!(parse_i32_text("-17"), Some(-17));
    assert_eq!(parse_i32_text("+5"), Some(5));
    assert_eq!(parse_i32_text("2147483647"), Some(i32::MAX));
    assert_eq!(parse_i32_text("-2147483648"), Some(i32::MIN));
    assert_eq!(parse_i32_text("2147483648"), None);
    assert_eq!(parse_i32_text("-2147483649"), None);
    assert_eq!(parse_i32_text(""), None);
    assert_eq!(parse_i32_text("-"), None);
    assert_eq!(parse_i32_text("12a"), None);
    assert_eq!(parse_i32_text(" 1"), None);
}

#[test]
fn captures_become_tokens_in_order() {
    let caps = vec![
        ("{".to_string(), flags_for(0)),
        ("x".to_string(), flags_for(7)),
        ("12".to_string(), flags_for(8)),
        ("=".to_string(), flags_for(23)),
        ("?".to_string(), vec![false; TOKEN_GROUPS]),
        (";".to_string(), flags_for(4)),
    ];
    let (toks, lits) = tokens_from_captures(&caps).unwrap();
    assert_eq!(texts(&toks), vec!["{", "ID(x)", "INT(12)", "=", ";"]);
    assert_eq!(lits, vec!["{", "x", "12", "=", "?", ";"]);
}

#[test]
fn first_group_that_took_part_decides() {
    let mut flags = vec![false; TOKEN_GROUPS];
    flags[12] = true;
    flags[18] = true;
    let caps = vec![("!".to_string(), flags)];
    let (toks, _) = tokens_from_captures(&caps).unwrap();
    assert!(matches!(toks[0], Token::Exclamation));
}

#[test]
fn capture_of_an_unknown_group_is_an_error() {
    let mut flags = vec![false; TOKEN_GROUPS + 1];
    flags[TOKEN_GROUPS] = true;
    let caps = vec![("{".to_string(), flags_for(0)), ("@".to_string(), flags)];
    assert_eq!(tokens_from_captures(&caps).err(), Some(LexError::UnknownToken(24)));
}

#[test]
fn capture_of_a_huge_literal_is_an_error() {
    let caps = vec![("99999999999".to_string(), flags_for(8))];
    assert_eq!(tokens_from_captures(&caps).err(), Some(LexError::NotANumber));
}

#[test]
fn token_printed_forms() {
    assert_eq!(Token::Keyword(Keyword::INT).to_string(), "KEYWORD_INT");
    assert_eq!(Token::Keyword(Keyword::RETURN).to_string(), "KEYWORD_RETURN");
    assert_eq!(Token::Identifier("main".to_string()).to_string(), "ID(main)");
    assert_eq!(Token::LiteralInt(-3).to_string(), "INT(-3)");
    assert_eq!(Token::LiteralInt(i32::MIN).to_string(), "INT(-2147483648)");
    assert_eq!(Token::OpenBrace.to_string(), "{");
    assert_eq!(Token::CloseBrace.to_string(), "}");
    assert_eq!(Token::GreaterEqual.to_string(), ">=");
    assert_eq!(Token::Unequal.to_string(), "!=");
    assert_eq!(Token::Or.to_string(), "||");
}

#[test]
fn tokens_compare_by_kind_and_value() {
    assert!(Token::Plus.same_as(&Token::Plus));
    assert!(!Token::Plus.same_as(&Token::Minus));
    assert!(Token::LiteralInt(3).same_as(&Token::LiteralInt(3)));
    assert!(!Token::LiteralInt(3).same_as(&Token::LiteralInt(4)));
    assert!(Token::Identifier("a".to_string()).same_as(&Token::Identifier("a".to_string())));
    assert!(!Token::Identifier("a".to_string()).same_as(&Token::Identifier("b".to_string())));
    assert!(!Token::Keyword(Keyword::INT).same_as(&Token::Keyword(Keyword::RETURN)));
    let t = Token::Identifier("z".to_string());
    assert!(t.clone().same_as(&t));
}

#[test]
fn default_keyword_is_return() {
    assert_eq!(Keyword::default(), Keyword::RETURN);
}
