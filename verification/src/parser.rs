use vstd::prelude::*;
use vstd::pervasive::unreached;
use crate::ast::{BinaryOp, BlockItem, Expression, Function, LogicalOp, Program, Statement, UnaryOp};
use crate::lexer::{Keyword, Token, same_token, token_text};

verus! {

// ---------------------------------------------------------------------------------------------
// Errors
// ---------------------------------------------------------------------------------------------

/// What an expected token was expected for.
#[derive(Clone, Copy, Debug, PartialEq, Eq, Structural)]
pub enum Expectation {
    FunctionType,
    FunctionParameters,
    FunctionStart,
    FunctionEnd,
    AfterReturn,
    AfterInitialization,
    AfterExpressionStatement,
    AfterExpression,
}

/// Why a token sequence is not a program. Where a token was found in place of the expected one,
/// it is carried; `None` stands for the end of the tokens.
#[derive(Debug)]
pub enum ParseError {
    /// A given token was expected.
    Expected(Token, Expectation, Option<Token>),
    /// The token after `int` at the start of a function is not a name.
    FunctionName,
    /// The token after `int` in a declaration is not a name.
    VariableName(Option<Token>),
    /// A declared name is followed by neither `;` nor `=`.
    DeclarationEnd(Option<Token>),
    /// The tokens end where a statement should start.
    StatementEof,
    /// No expression factor starts here.
    Factor(Option<Token>),
}

/// The words that say what an expected token was expected for.
pub open spec fn expectation_text(e: Expectation) -> Seq<char> {
    match e {
        Expectation::FunctionType => "for function type"@,
        Expectation::FunctionParameters => "for function parameters"@,
        Expectation::FunctionStart => "for function start"@,
        Expectation::FunctionEnd => "for function end"@,
        Expectation::AfterReturn => "after return statement"@,
        Expectation::AfterInitialization => "after variable initialization"@,
        Expectation::AfterExpressionStatement => "after expression statement"@,
        Expectation::AfterExpression => "after expression"@,
    }
}

/// The message of a parse error.
pub open spec fn parse_error_text(e: ParseError) -> Seq<char> {
    match e {
        ParseError::Expected(exp, why, Some(found)) => "Expected '"@ + token_text(exp) + "' "@
            + expectation_text(why) + ", found: "@ + token_text(found),
        ParseError::Expected(exp, why, None) => "Expected '"@ + token_text(exp) + "' "@
            + expectation_text(why) + ", found: end of file (EOF)"@,
        ParseError::FunctionName => "Expected function name"@,
        ParseError::VariableName(Some(found)) => "Expected variable name (string), found: "@
            + token_text(found),
        ParseError::VariableName(None) =>
            "Expected variable name (string) in declaration, found EOF (End of File)"@,
        ParseError::DeclarationEnd(Some(found)) => "Expected ';' after statement, found: "@
            + token_text(found),
        ParseError::DeclarationEnd(None) => "Expected ';' after statement, found EOF (End of File)"@,
        ParseError::StatementEof => "Expected statement, found EOF (End of File)"@,
        ParseError::Factor(Some(found)) => "Expected factor, found: "@ + token_text(found),
        ParseError::Factor(None) => "Expected factor, found EOF"@,
    }
}

// ---------------------------------------------------------------------------------------------
// The grammar
// ---------------------------------------------------------------------------------------------

/// An infix operator: arithmetic or relational, or logical (short-circuiting).
pub enum Infix {
    Bin(BinaryOp),
    Log(LogicalOp),
}

/// The number of tokens from position `p` to the end.
pub open spec fn tokens_left(t: Seq<Token>, p: nat) -> nat {
    if p < t.len() {
        (t.len() - p) as nat
    } else {
        0
    }
}

/// The token at position `p`, if any.
pub open spec fn token_at(t: Seq<Token>, p: nat) -> Option<Token> {
    if p < t.len() {
        Some(t[p as int])
    } else {
        None
    }
}

/// The unary operator that a token stands for: `-`, `~`, `!`.
pub open spec fn unary_op_of(tok: Token) -> Option<UnaryOp> {
    match tok {
        Token::Minus => Some(UnaryOp::Negate),
        Token::Tilde => Some(UnaryOp::BitwiseNot),
        Token::Exclamation => Some(UnaryOp::LogicalNot),
        _ => None,
    }
}

/// Term operators: `*`, `/`.
pub open spec fn term_op_of(tok: Token) -> Option<BinaryOp> {
    match tok {
        Token::Star => Some(BinaryOp::Multiply),
        Token::Slash => Some(BinaryOp::Divide),
        _ => None,
    }
}

/// Additive operators: `+`, `-`.
pub open spec fn additive_op_of(tok: Token) -> Option<BinaryOp> {
    match tok {
        Token::Plus => Some(BinaryOp::Add),
        Token::Minus => Some(BinaryOp::Subtract),
        _ => None,
    }
}

/// Relational operators: `<`, `<=`, `>`, `>=`.
pub open spec fn relational_op_of(tok: Token) -> Option<BinaryOp> {
    match tok {
        Token::Less => Some(BinaryOp::Less),
        Token::LessEqual => Some(BinaryOp::LessEqual),
        Token::Greater => Some(BinaryOp::Greater),
        Token::GreaterEqual => Some(BinaryOp::GreaterEqual),
        _ => None,
    }
}

/// Equality operators: `==`, `!=`.
pub open spec fn equality_op_of(tok: Token) -> Option<BinaryOp> {
    match tok {
        Token::Equal => Some(BinaryOp::Equal),
        Token::Unequal => Some(BinaryOp::Unequal),
        _ => None,
    }
}

/// The logical AND operator `&&`.
pub open spec fn and_op_of(tok: Token) -> Option<LogicalOp> {
    match tok {
        Token::And => Some(LogicalOp::And),
        _ => None,
    }
}

/// The logical OR operator `||`.
pub open spec fn or_op_of(tok: Token) -> Option<LogicalOp> {
    match tok {
        Token::Or => Some(LogicalOp::Or),
        _ => None,
    }
}

pub open spec fn bin_infix(b: Option<BinaryOp>) -> Option<Infix> {
    match b {
        Some(b) => Some(Infix::Bin(b)),
        None => None,
    }
}

pub open spec fn log_infix(l: Option<LogicalOp>) -> Option<Infix> {
    match l {
        Some(l) => Some(Infix::Log(l)),
        None => None,
    }
}

/// The infix operator that a token stands for at precedence level `k`, from 1 (binding
/// tightest: `*`, `/`) to 6 (`||`).
pub open spec fn level_op(k: nat, tok: Token) -> Option<Infix> {
    if k == 1 {
        bin_infix(term_op_of(tok))
    } else if k == 2 {
        bin_infix(additive_op_of(tok))
    } else if k == 3 {
        bin_infix(relational_op_of(tok))
    } else if k == 4 {
        bin_infix(equality_op_of(tok))
    } else if k == 5 {
        log_infix(and_op_of(tok))
    } else if k == 6 {
        log_infix(or_op_of(tok))
    } else {
        None
    }
}

/// The expression that applies an infix operator to two operands.
pub open spec fn combine(op: Infix, l: Expression, r: Expression) -> Expression {
    match op {
        Infix::Bin(b) => Expression::BinOp(b, Box::new(l), Box::new(r)),
        Infix::Log(o) => Expression::LogOp(o, Box::new(l), Box::new(r)),
    }
}

/// `<factor> ::= "(" <exp> ")" | <unary_op> <factor> | <int> | <id>`, read at position `p`:
/// the expression and the number of tokens it takes.
pub open spec fn factor_syntax(t: Seq<Token>, p: nat) -> Result<(Expression, nat), ParseError>
    decreases tokens_left(t, p), 0nat,
{
    if p >= t.len() {
        Err(ParseError::Factor(None))
    } else {
        match unary_op_of(t[p as int]) {
            Some(op) => match factor_syntax(t, p + 1) {
                Ok((e, c)) => Ok((Expression::UnOp(op, Box::new(e)), c + 1)),
                Err(x) => Err(x),
            },
            None => match t[p as int] {
                Token::OpenParen => match expression_syntax(t, p + 1) {
                    Ok((e, c)) => if token_at(t, p + 1 + c) matches Some(Token::CloseParen) {
                        Ok((e, c + 2))
                    } else {
                        Err(
                            ParseError::Expected(
                                Token::CloseParen,
                                Expectation::AfterExpression,
                                token_at(t, p + 1 + c),
                            ),
                        )
                    },
                    Err(x) => Err(x),
                },
                Token::LiteralInt(v) => Ok((Expression::LiteralInt(v), 1)),
                Token::Identifier(name) => Ok((Expression::Var(name), 1)),
                other => Err(ParseError::Factor(Some(other))),
            },
        }
    }
}

/// Precedence level `k` at position `p`: level 0 is a factor; level `k > 0` is
/// `<level k-1> { <op of level k> <level k-1> }`, grouped to the left.
pub open spec fn level_syntax(t: Seq<Token>, p: nat, k: nat) -> Result<(Expression, nat), ParseError>
    decreases tokens_left(t, p), k + 1,
{
    if k == 0 {
        factor_syntax(t, p)
    } else {
        match level_syntax(t, p, (k - 1) as nat) {
            Ok((l, c)) => match level_rest_syntax(t, k, l, p + c) {
                Ok((e, c2)) => Ok((e, c + c2)),
                Err(x) => Err(x),
            },
            Err(x) => Err(x),
        }
    }
}

/// The repetition `{ <op of level k> <level k-1> }` at position `p`, after a left operand.
pub open spec fn level_rest_syntax(t: Seq<Token>, k: nat, left: Expression, p: nat) -> Result<
    (Expression, nat),
    ParseError,
>
    decreases tokens_left(t, p), 0nat,
{
    if p < t.len() && k > 0 {
        match level_op(k, t[p as int]) {
            Some(op) => match level_syntax(t, p + 1, (k - 1) as nat) {
                Ok((r, c)) => match level_rest_syntax(t, k, combine(op, left, r), p + 1 + c) {
                    Ok((e, c2)) => Ok((e, 1 + c + c2)),
                    Err(x) => Err(x),
                },
                Err(x) => Err(x),
            },
            None => Ok((left, 0)),
        }
    } else {
        Ok((left, 0))
    }
}

/// `<exp> ::= <id> "=" <exp> | <logical-or-exp>` at position `p`.
pub open spec fn expression_syntax(t: Seq<Token>, p: nat) -> Result<(Expression, nat), ParseError>
    decreases tokens_left(t, p), 8nat,
{
    if p + 1 < t.len() && t[p as int] is Identifier && t[p + 1 as int] is Assign {
        match expression_syntax(t, p + 2) {
            Ok((e, c)) => Ok((Expression::Assign(t[p as int]->Identifier_0, Box::new(e)), c + 2)),
            Err(x) => Err(x),
        }
    } else {
        level_syntax(t, p, 6)
    }
}


/// Reading the expected token `exp` at position `p`.
pub open spec fn expect_syntax(t: Seq<Token>, p: nat, exp: Token, why: Expectation) -> Result<
    (),
    ParseError,
> {
    match token_at(t, p) {
        Some(found) => if same_token(found, exp) {
            Ok(())
        } else {
            Err(ParseError::Expected(exp, why, Some(found)))
        },
        None => Err(ParseError::Expected(exp, why, None)),
    }
}

/// `<statement> ::= "return" <exp> ";" | <exp> ";" | "int" <id> [ "=" <exp> ] ";"` at
/// position `p`: the block item and the number of tokens it takes.
pub open spec fn statement_syntax(t: Seq<Token>, p: nat) -> Result<(BlockItem, nat), ParseError> {
    if p >= t.len() {
        Err(ParseError::StatementEof)
    } else {
        match t[p as int] {
            Token::Keyword(Keyword::RETURN) => match expression_syntax(t, p + 1) {
                Ok((e, c)) => match expect_syntax(t, p + 1 + c, Token::Semicolon, Expectation::AfterReturn) {
                    Ok(_) => Ok((BlockItem::Stmt(Statement::Ret(e)), c + 2)),
                    Err(x) => Err(x),
                },
                Err(x) => Err(x),
            },
            Token::Keyword(Keyword::INT) => match token_at(t, p + 1) {
                Some(Token::Identifier(name)) => match token_at(t, p + 2) {
                    Some(Token::Semicolon) => Ok((BlockItem::Decl(name, None), 3)),
                    Some(Token::Assign) => match expression_syntax(t, p + 3) {
                        Ok((e, c)) => match expect_syntax(
                            t,
                            p + 3 + c,
                            Token::Semicolon,
                            Expectation::AfterInitialization,
                        ) {
                            Ok(_) => Ok((BlockItem::Decl(name, Some(e)), c + 4)),
                            Err(x) => Err(x),
                        },
                        Err(x) => Err(x),
                    },
                    Some(other) => Err(ParseError::DeclarationEnd(Some(other))),
                    None => Err(ParseError::DeclarationEnd(None)),
                },
                Some(other) => Err(ParseError::VariableName(Some(other))),
                None => Err(ParseError::VariableName(None)),
            },
            _ => match expression_syntax(t, p) {
                Ok((e, c)) => match expect_syntax(
                    t,
                    p + c,
                    Token::Semicolon,
                    Expectation::AfterExpressionStatement,
                ) {
                    Ok(_) => Ok((BlockItem::Stmt(Statement::Expr(e)), c + 1)),
                    Err(x) => Err(x),
                },
                Err(x) => Err(x),
            },
        }
    }
}

/// The statements of a function body at position `p`, up to the closing brace or up to and
/// including the first `return` statement.
pub open spec fn body_syntax(t: Seq<Token>, p: nat) -> Result<(Seq<BlockItem>, nat), ParseError>
    decreases tokens_left(t, p),
{
    if token_at(t, p) matches Some(Token::CloseBrace) {
        Ok((Seq::empty(), 0))
    } else {
        match statement_syntax(t, p) {
            Ok((item, c)) => if item matches BlockItem::Stmt(Statement::Ret(_)) {
                Ok((seq![item], c))
            } else {
                match body_syntax(t, p + c) {
                    Ok((rest, c2)) => Ok((seq![item] + rest, c + c2)),
                    Err(x) => Err(x),
                }
            },
            Err(x) => Err(x),
        }
    }
}

/// `<function> ::= "int" <id> "(" ")" "{" { <statement> } "}"` at position `p`: the function's
/// name, its body and the number of tokens it takes.
pub open spec fn function_syntax(t: Seq<Token>, p: nat) -> Result<
    (String, Seq<BlockItem>, nat),
    ParseError,
> {
    match expect_syntax(t, p, Token::Keyword(Keyword::INT), Expectation::FunctionType) {
        Err(x) => Err(x),
        Ok(_) => match token_at(t, p + 1) {
            Some(Token::Identifier(name)) => match expect_syntax(
                t,
                p + 2,
                Token::OpenParen,
                Expectation::FunctionParameters,
            ) {
                Err(x) => Err(x),
                Ok(_) => match expect_syntax(
                    t,
                    p + 3,
                    Token::CloseParen,
                    Expectation::FunctionParameters,
                ) {
                    Err(x) => Err(x),
                    Ok(_) => match expect_syntax(
                        t,
                        p + 4,
                        Token::OpenBrace,
                        Expectation::FunctionStart,
                    ) {
                        Err(x) => Err(x),
                        Ok(_) => match body_syntax(t, p + 5) {
                            Err(x) => Err(x),
                            Ok((body, c)) => match expect_syntax(
                                t,
                                p + 5 + c,
                                Token::CloseBrace,
                                Expectation::FunctionEnd,
                            ) {
                                Err(x) => Err(x),
                                Ok(_) => Ok((name, body, c + 6)),
                            },
                        },
                    },
                },
            },
            _ => Err(ParseError::FunctionName),
        },
    }
}

/// `<program> ::= { <function> }` from position `p` to the end of the tokens: the name and body
/// of each function, in order.
pub open spec fn program_syntax(t: Seq<Token>, p: nat) -> Result<
    Seq<(String, Seq<BlockItem>)>,
    ParseError,
>
    decreases tokens_left(t, p),
{
    if p >= t.len() {
        Ok(Seq::empty())
    } else {
        match function_syntax(t, p) {
            Ok((name, body, c)) => match program_syntax(t, p + c) {
                Ok(fs) => Ok(seq![(name, body)] + fs),
                Err(x) => Err(x),
            },
            Err(x) => Err(x),
        }
    }
}

/// The name and body of a function.
pub open spec fn function_shape(f: Function) -> (String, Seq<BlockItem>) {
    (f.name, f.child_block_items@)
}


/// A parse result whose count of tokens taken is larger by `d`.
pub open spec fn shifted<T>(r: Result<(T, nat), ParseError>, d: nat) -> Result<(T, nat), ParseError> {
    match r {
        Ok((v, c)) => Ok((v, c + d)),
        Err(x) => Err(x),
    }
}

/// A result of reading a list, with `items` put in front of the list and `d` tokens more taken.
pub open spec fn prepended<T>(items: Seq<T>, r: Result<(Seq<T>, nat), ParseError>, d: nat) -> Result<
    (Seq<T>, nat),
    ParseError,
> {
    match r {
        Ok((rest, c)) => Ok((items + rest, c + d)),
        Err(x) => Err(x),
    }
}

impl ParseError {
    /// The message of the error.
    pub fn message(&self) -> (s: String)
        ensures
            s@ == parse_error_text(*self),
    {
        let mut s = String::new();
        match self {
            ParseError::Expected(exp, why, found) => {
                s.append("Expected '");
                let t = exp.to_string();
                s.append(t.as_str());
                s.append("' ");
                match why {
                    Expectation::FunctionType => s.append("for function type"),
                    Expectation::FunctionParameters => s.append("for function parameters"),
                    Expectation::FunctionStart => s.append("for function start"),
                    Expectation::FunctionEnd => s.append("for function end"),
                    Expectation::AfterReturn => s.append("after return statement"),
                    Expectation::AfterInitialization => s.append("after variable initialization"),
                    Expectation::AfterExpressionStatement => s.append("after expression statement"),
                    Expectation::AfterExpression => s.append("after expression"),
                }
                match found {
                    Some(f) => {
                        s.append(", found: ");
                        let t = f.to_string();
                        s.append(t.as_str());
                    },
                    None => s.append(", found: end of file (EOF)"),
                }
            },
            ParseError::FunctionName => s.append("Expected function name"),
            ParseError::VariableName(Some(f)) => {
                s.append("Expected variable name (string), found: ");
                let t = f.to_string();
                s.append(t.as_str());
            },
            ParseError::VariableName(None) => s.append(
                "Expected variable name (string) in declaration, found EOF (End of File)",
            ),
            ParseError::DeclarationEnd(Some(f)) => {
                s.append("Expected ';' after statement, found: ");
                let t = f.to_string();
                s.append(t.as_str());
            },
            ParseError::DeclarationEnd(None) => s.append(
                "Expected ';' after statement, found EOF (End of File)",
            ),
            ParseError::StatementEof => s.append("Expected statement, found EOF (End of File)"),
            ParseError::Factor(Some(f)) => {
                s.append("Expected factor, found: ");
                let t = f.to_string();
                s.append(t.as_str());
            },
            ParseError::Factor(None) => s.append("Expected factor, found EOF"),
        }
        s
    }
}

/// Converts raw tokens into a syntax tree, by recursive descent.
pub struct Parser {
    tokens: Vec<Token>,
    current: usize,
}

impl Parser {
    #[verifier::type_invariant]
    spec fn position_in_range(&self) -> bool {
        self.current <= self.tokens.len()
    }

    /// The tokens being parsed.
    pub closed spec fn toks(&self) -> Seq<Token> {
        self.tokens@
    }

    /// The position of the next token to read.
    pub closed spec fn pos(&self) -> nat {
        self.current as nat
    }

    /// A parser at the start of `tokens`.
    pub fn new(tokens: Vec<Token>) -> (p: Self)
        ensures
            p.toks() == tokens@,
            p.pos() == 0,
    {
        Parser { tokens, current: 0 }
    }

    /// The next token, not consumed.
    fn peek(&self) -> (r: Option<&Token>)
        ensures
            (match r {
                Some(tok) => token_at(self.toks(), self.pos()) == Some(*tok),
                None => token_at(self.toks(), self.pos()) is None,
            }),
    {
        proof {
            use_type_invariant(self);
        }
        if self.current < self.tokens.len() {
            Some(&self.tokens[self.current])
        } else {
            None
        }
    }

    /// Consumes the next token and returns it; at the end of the tokens, returns `None`.
    fn advance(&mut self) -> (r: Option<Token>)
        ensures
            final(self).toks() == old(self).toks(),
            r == token_at(old(self).toks(), old(self).pos()),
            final(self).pos() == if old(self).pos() < old(self).toks().len() {
                old(self).pos() + 1
            } else {
                old(self).pos()
            },
    {
        proof {
            use_type_invariant(&*self);
        }
        if self.current < self.tokens.len() {
            let tok = self.tokens[self.current].clone();
            self.current = self.current + 1;
            Some(tok)
        } else {
            None
        }
    }

    /// Consumes the next token, which is `exp_token`.
    fn expect(&mut self, exp_token: Token, why: Expectation)
        requires
            expect_syntax(old(self).toks(), old(self).pos(), exp_token, why) is Ok,
        ensures
            final(self).toks() == old(self).toks(),
            final(self).pos() == old(self).pos() + 1,
    {
        self.advance();
    }

    /// The unary operator that the next token stands for, if any.
    fn peek_unary_op(&self) -> (r: Option<UnaryOp>)
        ensures
            r == (match token_at(self.toks(), self.pos()) {
                Some(tok) => unary_op_of(tok),
                None => None,
            }),
    {
        match self.peek() {
            Some(Token::Minus) => Some(UnaryOp::Negate),
            Some(Token::Tilde) => Some(UnaryOp::BitwiseNot),
            Some(Token::Exclamation) => Some(UnaryOp::LogicalNot),
            _ => None,
        }
    }

    /// The term operator (`*`, `/`) that the next token stands for, if any.
    fn peek_term_op(&self) -> (r: Option<BinaryOp>)
        ensures
            bin_infix(r) == (match token_at(self.toks(), self.pos()) {
                Some(tok) => level_op(1, tok),
                None => None,
            }),
    {
        match self.peek() {
            Some(Token::Star) => Some(BinaryOp::Multiply),
            Some(Token::Slash) => Some(BinaryOp::Divide),
            _ => None,
        }
    }

    /// The additive operator (`+`, `-`) that the next token stands for, if any.
    fn peek_expr_op(&self) -> (r: Option<BinaryOp>)
        ensures
            bin_infix(r) == (match token_at(self.toks(), self.pos()) {
                Some(tok) => level_op(2, tok),
                None => None,
            }),
    {
        match self.peek() {
            Some(Token::Plus) => Some(BinaryOp::Add),
            Some(Token::Minus) => Some(BinaryOp::Subtract),
            _ => None,
        }
    }

    /// The relational operator (`<`, `<=`, `>`, `>=`) that the next token stands for, if any.
    fn peek_relational_op(&self) -> (r: Option<BinaryOp>)
        ensures
            bin_infix(r) == (match token_at(self.toks(), self.pos()) {
                Some(tok) => level_op(3, tok),
                None => None,
            }),
    {
        match self.peek() {
            Some(Token::Less) => Some(BinaryOp::Less),
            Some(Token::LessEqual) => Some(BinaryOp::LessEqual),
            Some(Token::Greater) => Some(BinaryOp::Greater),
            Some(Token::GreaterEqual) => Some(BinaryOp::GreaterEqual),
            _ => None,
        }
    }

    /// The equality operator (`==`, `!=`) that the next token stands for, if any.
    fn peek_equality_op(&self) -> (r: Option<BinaryOp>)
        ensures
            bin_infix(r) == (match token_at(self.toks(), self.pos()) {
                Some(tok) => level_op(4, tok),
                None => None,
            }),
    {
        match self.peek() {
            Some(Token::Equal) => Some(BinaryOp::Equal),
            Some(Token::Unequal) => Some(BinaryOp::Unequal),
            _ => None,
        }
    }

    /// The logical AND operator (`&&`), if the next token is one.
    fn peek_logical_and_op(&self) -> (r: Option<LogicalOp>)
        ensures
            log_infix(r) == (match token_at(self.toks(), self.pos()) {
                Some(tok) => level_op(5, tok),
                None => None,
            }),
    {
        match self.peek() {
            Some(Token::And) => Some(LogicalOp::And),
            _ => None,
        }
    }

    /// The logical OR operator (`||`), if the next token is one.
    fn peek_logical_or_op(&self) -> (r: Option<LogicalOp>)
        ensures
            log_infix(r) == (match token_at(self.toks(), self.pos()) {
                Some(tok) => level_op(6, tok),
                None => None,
            }),
    {
        match self.peek() {
            Some(Token::Or) => Some(LogicalOp::Or),
            _ => None,
        }
    }

    /// `<factor> ::= "(" <exp> ")" | <unary_op> <factor> | <int> | <id>`
    fn parse_factor(&mut self) -> (r: Expression)
        requires
            factor_syntax(old(self).toks(), old(self).pos()) is Ok,
        ensures
            final(self).toks() == old(self).toks(),
            r == factor_syntax(old(self).toks(), old(self).pos())->Ok_0.0,
            final(self).pos() == old(self).pos() + factor_syntax(old(self).toks(), old(self).pos())->Ok_0.1,
        decreases tokens_left(old(self).toks(), old(self).pos()), 0nat,
    {
        proof {
            use_type_invariant(&*self);
        }
        if let Some(op) = self.peek_unary_op() {
            self.advance();
            let operand = self.parse_factor();
            return Expression::UnOp(op, Box::new(operand));
        }
        let tok = self.tokens[self.current].clone();
        match tok {
            Token::OpenParen => {
                self.advance();
                let node = self.parse_expression();
                self.expect(Token::CloseParen, Expectation::AfterExpression);
                node
            },
            Token::LiteralInt(val) => {
                self.advance();
                Expression::LiteralInt(val)
            },
            Token::Identifier(var_name) => {
                self.advance();
                Expression::Var(var_name)
            },
            _ => unreached(),
        }
    }

    /// `<exp> ::= <id> "=" <exp> | <logical-or-exp>`
    fn parse_expression(&mut self) -> (r: Expression)
        requires
            expression_syntax(old(self).toks(), old(self).pos()) is Ok,
        ensures
            final(self).toks() == old(self).toks(),
            r == expression_syntax(old(self).toks(), old(self).pos())->Ok_0.0,
            final(self).pos() == old(self).pos() + expression_syntax(old(self).toks(), old(self).pos())->Ok_0.1,
        decreases tokens_left(old(self).toks(), old(self).pos()), 8nat,
    {
        proof {
            use_type_invariant(&*self);
        }
        if self.tokens.len() > 1 && self.current < self.tokens.len() - 1 {
            if let Token::Identifier(var_name) = &self.tokens[self.current] {
                if let Token::Assign = &self.tokens[self.current + 1] {
                    let name = var_name.clone();
                    self.advance();
                    self.advance();
                    let expr = self.parse_expression();
                    return Expression::Assign(name, Box::new(expr));
                }
            }
        }
        self.parse_logical_or_expression()
    }

    /// `<term> ::= <factor> { ("*" | "/") <factor> }`
    fn parse_term(&mut self) -> (r: Expression)
        requires
            level_syntax(old(self).toks(), old(self).pos(), 1) is Ok,
        ensures
            final(self).toks() == old(self).toks(),
            r == level_syntax(old(self).toks(), old(self).pos(), 1)->Ok_0.0,
            final(self).pos() == old(self).pos() + level_syntax(old(self).toks(), old(self).pos(), 1)->Ok_0.1,
        decreases tokens_left(old(self).toks(), old(self).pos()), 2nat,
    {
        let ghost t = self.toks();
        let ghost p0 = self.pos();
        assert(level_syntax(t, p0, 0) == factor_syntax(t, p0));
        let mut left = self.parse_factor();
        loop
            invariant
                t == old(self).toks(),
                p0 == old(self).pos(),
                self.toks() == t,
                p0 <= self.pos(),
                level_syntax(t, p0, 1) is Ok,
                level_syntax(t, p0, 1) == shifted(
                    level_rest_syntax(t, 1, left, self.pos()),
                    (self.pos() - p0) as nat,
                ),
            decreases tokens_left(t, self.pos()),
        {
            proof {
                use_type_invariant(&*self);
            }
            match self.peek_term_op() {
                Some(op) => {
                    self.advance();
                    assert(level_syntax(t, self.pos(), 0) == factor_syntax(t, self.pos()));
                    let right = self.parse_factor();
                    left = Expression::BinOp(op, Box::new(left), Box::new(right));
                },
                None => return left,
            }
        }
    }

    /// `<additive-exp> ::= <term> { ("+" | "-") <term> }`
    fn parse_additive_expression(&mut self) -> (r: Expression)
        requires
            level_syntax(old(self).toks(), old(self).pos(), 2) is Ok,
        ensures
            final(self).toks() == old(self).toks(),
            r == level_syntax(old(self).toks(), old(self).pos(), 2)->Ok_0.0,
            final(self).pos() == old(self).pos() + level_syntax(old(self).toks(), old(self).pos(), 2)->Ok_0.1,
        decreases tokens_left(old(self).toks(), old(self).pos()), 3nat,
    {
        let ghost t = self.toks();
        let ghost p0 = self.pos();
        let mut left = self.parse_term();
        loop
            invariant
                t == old(self).toks(),
                p0 == old(self).pos(),
                self.toks() == t,
                p0 <= self.pos(),
                level_syntax(t, p0, 2) is Ok,
                level_syntax(t, p0, 2) == shifted(
                    level_rest_syntax(t, 2, left, self.pos()),
                    (self.pos() - p0) as nat,
                ),
            decreases tokens_left(t, self.pos()),
        {
            proof {
                use_type_invariant(&*self);
            }
            match self.peek_expr_op() {
                Some(op) => {
                    self.advance();
                    let right = self.parse_term();
                    left = Expression::BinOp(op, Box::new(left), Box::new(right));
                },
                None => return left,
            }
        }
    }

    /// `<relational-exp> ::= <additive-exp> { ("<" | ">" | "<=" | ">=") <additive-exp> }`
    fn parse_relational_expression(&mut self) -> (r: Expression)
        requires
            level_syntax(old(self).toks(), old(self).pos(), 3) is Ok,
        ensures
            final(self).toks() == old(self).toks(),
            r == level_syntax(old(self).toks(), old(self).pos(), 3)->Ok_0.0,
            final(self).pos() == old(self).pos() + level_syntax(old(self).toks(), old(self).pos(), 3)->Ok_0.1,
        decreases tokens_left(old(self).toks(), old(self).pos()), 4nat,
    {
        let ghost t = self.toks();
        let ghost p0 = self.pos();
        let mut left = self.parse_additive_expression();
        loop
            invariant
                t == old(self).toks(),
                p0 == old(self).pos(),
                self.toks() == t,
                p0 <= self.pos(),
                level_syntax(t, p0, 3) is Ok,
                level_syntax(t, p0, 3) == shifted(
                    level_rest_syntax(t, 3, left, self.pos()),
                    (self.pos() - p0) as nat,
                ),
            decreases tokens_left(t, self.pos()),
        {
            proof {
                use_type_invariant(&*self);
            }
            match self.peek_relational_op() {
                Some(op) => {
                    self.advance();
                    let right = self.parse_additive_expression();
                    left = Expression::BinOp(op, Box::new(left), Box::new(right));
                },
                None => return left,
            }
        }
    }

    /// `<equality-exp> ::= <relational-exp> { ("!=" | "==") <relational-exp> }`
    fn parse_equality_expression(&mut self) -> (r: Expression)
        requires
            level_syntax(old(self).toks(), old(self).pos(), 4) is Ok,
        ensures
            final(self).toks() == old(self).toks(),
            r == level_syntax(old(self).toks(), old(self).pos(), 4)->Ok_0.0,
            final(self).pos() == old(self).pos() + level_syntax(old(self).toks(), old(self).pos(), 4)->Ok_0.1,
        decreases tokens_left(old(self).toks(), old(self).pos()), 5nat,
    {
        let ghost t = self.toks();
        let ghost p0 = self.pos();
        let mut left = self.parse_relational_expression();
        loop
            invariant
                t == old(self).toks(),
                p0 == old(self).pos(),
                self.toks() == t,
                p0 <= self.pos(),
                level_syntax(t, p0, 4) is Ok,
                level_syntax(t, p0, 4) == shifted(
                    level_rest_syntax(t, 4, left, self.pos()),
                    (self.pos() - p0) as nat,
                ),
            decreases tokens_left(t, self.pos()),
        {
            proof {
                use_type_invariant(&*self);
            }
            match self.peek_equality_op() {
                Some(op) => {
                    self.advance();
                    let right = self.parse_relational_expression();
                    left = Expression::BinOp(op, Box::new(left), Box::new(right));
                },
                None => return left,
            }
        }
    }

    /// `<logical-and-exp> ::= <equality-exp> { "&&" <equality-exp> }`
    fn parse_logical_and_expression(&mut self) -> (r: Expression)
        requires
            level_syntax(old(self).toks(), old(self).pos(), 5) is Ok,
        ensures
            final(self).toks() == old(self).toks(),
            r == level_syntax(old(self).toks(), old(self).pos(), 5)->Ok_0.0,
            final(self).pos() == old(self).pos() + level_syntax(old(self).toks(), old(self).pos(), 5)->Ok_0.1,
        decreases tokens_left(old(self).toks(), old(self).pos()), 6nat,
    {
        let ghost t = self.toks();
        let ghost p0 = self.pos();
        let mut left = self.parse_equality_expression();
        loop
            invariant
                t == old(self).toks(),
                p0 == old(self).pos(),
                self.toks() == t,
                p0 <= self.pos(),
                level_syntax(t, p0, 5) is Ok,
                level_syntax(t, p0, 5) == shifted(
                    level_rest_syntax(t, 5, left, self.pos()),
                    (self.pos() - p0) as nat,
                ),
            decreases tokens_left(t, self.pos()),
        {
            proof {
                use_type_invariant(&*self);
            }
            match self.peek_logical_and_op() {
                Some(op) => {
                    self.advance();
                    let right = self.parse_equality_expression();
                    left = Expression::LogOp(op, Box::new(left), Box::new(right));
                },
                None => return left,
            }
        }
    }

    /// `<logical-or-exp> ::= <logical-and-exp> { "||" <logical-and-exp> }`
    fn parse_logical_or_expression(&mut self) -> (r: Expression)
        requires
            level_syntax(old(self).toks(), old(self).pos(), 6) is Ok,
        ensures
            final(self).toks() == old(self).toks(),
            r == level_syntax(old(self).toks(), old(self).pos(), 6)->Ok_0.0,
            final(self).pos() == old(self).pos() + level_syntax(old(self).toks(), old(self).pos(), 6)->Ok_0.1,
        decreases tokens_left(old(self).toks(), old(self).pos()), 7nat,
    {
        let ghost t = self.toks();
        let ghost p0 = self.pos();
        let mut left = self.parse_logical_and_expression();
        loop
            invariant
                t == old(self).toks(),
                p0 == old(self).pos(),
                self.toks() == t,
                p0 <= self.pos(),
                level_syntax(t, p0, 6) is Ok,
                level_syntax(t, p0, 6) == shifted(
                    level_rest_syntax(t, 6, left, self.pos()),
                    (self.pos() - p0) as nat,
                ),
            decreases tokens_left(t, self.pos()),
        {
            proof {
                use_type_invariant(&*self);
            }
            match self.peek_logical_or_op() {
                Some(op) => {
                    self.advance();
                    let right = self.parse_logical_and_expression();
                    left = Expression::LogOp(op, Box::new(left), Box::new(right));
                },
                None => return left,
            }
        }
    }

    /// `<statement> ::= "return" <exp> ";" | <exp> ";" | "int" <id> [ "=" <exp> ] ";"`
    fn parse_statement(&mut self) -> (r: BlockItem)
        requires
            statement_syntax(old(self).toks(), old(self).pos()) is Ok,
        ensures
            final(self).toks() == old(self).toks(),
            r == statement_syntax(old(self).toks(), old(self).pos())->Ok_0.0,
            final(self).pos() == old(self).pos() + statement_syntax(old(self).toks(), old(self).pos())->Ok_0.1,
    {
        proof {
            use_type_invariant(&*self);
        }
        let is_return = matches!(self.tokens[self.current], Token::Keyword(Keyword::RETURN));
        let is_int = matches!(self.tokens[self.current], Token::Keyword(Keyword::INT));
        if is_return {
            self.advance();
            let expr = self.parse_expression();
            self.expect(Token::Semicolon, Expectation::AfterReturn);
            BlockItem::Stmt(Statement::Ret(expr))
        } else if is_int {
            self.advance();
            let var_name = match self.advance() {
                Some(Token::Identifier(n)) => n,
                _ => unreached(),
            };
            match self.advance() {
                Some(Token::Semicolon) => BlockItem::Decl(var_name, None),
                Some(Token::Assign) => {
                    let expr = self.parse_expression();
                    self.expect(Token::Semicolon, Expectation::AfterInitialization);
                    BlockItem::Decl(var_name, Some(expr))
                },
                _ => unreached(),
            }
        } else {
            let expr = self.parse_expression();
            self.expect(Token::Semicolon, Expectation::AfterExpressionStatement);
            BlockItem::Stmt(Statement::Expr(expr))
        }
    }

    /// `<function> ::= "int" <id> "(" ")" "{" { <statement> } "}"`; the body ends after its
    /// first `return` statement.
    #[verifier::spinoff_prover]
    fn parse_function(&mut self) -> (r: Function)
        requires
            function_syntax(old(self).toks(), old(self).pos()) is Ok,
        ensures
            final(self).toks() == old(self).toks(),
            r.name == function_syntax(old(self).toks(), old(self).pos())->Ok_0.0,
            r.child_block_items@ == function_syntax(old(self).toks(), old(self).pos())->Ok_0.1,
            final(self).pos() == old(self).pos() + function_syntax(old(self).toks(), old(self).pos())->Ok_0.2,
    {
        let ghost t = self.toks();
        let ghost p0 = self.pos();
        self.expect(Token::Keyword(Keyword::INT), Expectation::FunctionType);
        let name = match self.advance() {
            Some(Token::Identifier(n)) => n,
            _ => unreached(),
        };
        self.expect(Token::OpenParen, Expectation::FunctionParameters);
        self.expect(Token::CloseParen, Expectation::FunctionParameters);
        self.expect(Token::OpenBrace, Expectation::FunctionStart);
        let ghost pb = self.pos();
        let mut statements: Vec<BlockItem> = Vec::new();
        let mut done = false;
        while !done
            invariant
                self.toks() == t,
                t == old(self).toks(),
                p0 == old(self).pos(),
                pb == p0 + 5,
                pb <= self.pos(),
                function_syntax(t, p0) is Ok,
                token_at(t, p0 + 1) == Some(Token::Identifier(name)),
                body_syntax(t, pb) is Ok,
                !done ==> body_syntax(t, pb) == prepended(
                    statements@,
                    body_syntax(t, self.pos()),
                    (self.pos() - pb) as nat,
                ),
                done ==> body_syntax(t, pb) == Ok::<(Seq<BlockItem>, nat), ParseError>(
                    (statements@, (self.pos() - pb) as nat),
                ),
            decreases tokens_left(t, self.pos()) + if done {
                0int
            } else {
                1int
            },
        {
            proof {
                use_type_invariant(&*self);
            }
            let ghost p = self.pos();
            if let Some(Token::CloseBrace) = self.peek() {
                done = true;
                assert(statements@ + Seq::<BlockItem>::empty() =~= statements@);
            } else {
                let item = self.parse_statement();
                let is_return = matches!(item, BlockItem::Stmt(Statement::Ret(_)));
                let ghost prev = statements@;
                statements.push(item);
                if is_return {
                    done = true;
                    assert(prev + seq![item] =~= statements@);
                } else {
                    proof {
                        let (it, c) = statement_syntax(t, p).unwrap();
                        match body_syntax(t, self.pos()) {
                            Ok((rest, c2)) => {
                                assert(prev + (seq![it] + rest) =~= statements@ + rest);
                            },
                            Err(_) => {},
                        }
                    }
                }
            }
        }
        self.expect(Token::CloseBrace, Expectation::FunctionEnd);
        Function { name, child_block_items: statements }
    }

    /// `<program> ::= { <function> }`: reads functions from the current position to the end of
    /// the tokens; the program takes the name `path`. The tokens must form a program:
    /// `check_program` tells whether they do.
    #[verifier::spinoff_prover]
    pub fn parse_program(&mut self, path: &String) -> (prog: Program)
        requires
            program_syntax(old(self).toks(), old(self).pos()) is Ok,
        ensures
            final(self).toks() == old(self).toks(),
            final(self).pos() == final(self).toks().len(),
            prog.name@ == path@,
            prog.pretty_ast@ == Seq::<char>::empty(),
            prog.child_functions@.map_values(|f: Function| function_shape(f)) == program_syntax(
                old(self).toks(),
                old(self).pos(),
            )->Ok_0,
    {
        let ghost t = self.toks();
        let ghost p0 = self.pos();
        let mut prog = Program::new(path.clone());
        while self.peek().is_some()
            invariant
                self.toks() == t,
                t == old(self).toks(),
                p0 == old(self).pos(),
                p0 <= self.pos(),
                prog.name@ == path@,
                prog.pretty_ast@ == Seq::<char>::empty(),
                program_syntax(t, self.pos()) is Ok,
                program_syntax(t, p0)->Ok_0 == prog.child_functions@.map_values(
                    |f: Function| function_shape(f),
                ) + program_syntax(t, self.pos())->Ok_0,
            decreases tokens_left(t, self.pos()),
        {
            proof {
                use_type_invariant(&*self);
            }
            let ghost prev = prog.child_functions@;
            let ghost p = self.pos();
            let f = self.parse_function();
            prog.child_functions.push(f);
            proof {
                let fs = program_syntax(t, self.pos())->Ok_0;
                assert(program_syntax(t, p)->Ok_0 == seq![function_shape(f)] + fs);
                assert(prev.map_values(|f: Function| function_shape(f)) + (seq![function_shape(f)] + fs)
                    =~= prog.child_functions@.map_values(|f: Function| function_shape(f)) + fs);
            }
        }
        proof {
            use_type_invariant(&*self);
            assert(prog.child_functions@.map_values(|f: Function| function_shape(f)) + Seq::<
                (String, Seq<BlockItem>),
            >::empty() =~= prog.child_functions@.map_values(|f: Function| function_shape(f)));
        }
        prog
    }

    /// Whether the tokens from the current position on form a program, and if not, the error
    /// that the grammar gives.
    pub fn check_program(&self) -> (r: Result<(), ParseError>)
        ensures
            r == outcome(program_syntax(self.toks(), self.pos())),
    {
        proof {
            use_type_invariant(self);
        }
        check_program_from(&self.tokens, self.current)
    }
}

// ---------------------------------------------------------------------------------------------
// Telling whether tokens follow the grammar
// ---------------------------------------------------------------------------------------------

/// Whether a grammar result is a success, and if not, its error.
pub open spec fn outcome<T>(r: Result<T, ParseError>) -> Result<(), ParseError> {
    match r {
        Ok(_) => Ok(()),
        Err(x) => Err(x),
    }
}

/// `r` tells, of the grammar result `syntax` at position `p` in `len` tokens, how many tokens it
/// takes, or its error.
pub open spec fn counted<T>(syntax: Result<(T, nat), ParseError>, r: Result<usize, ParseError>, p: nat, len: nat) -> bool {
    match syntax {
        Ok((_, c)) => r matches Ok(n) && n == c && p + c <= len,
        Err(x) => r == Err::<usize, ParseError>(x),
    }
}

/// Whether `tok` is an infix operator of precedence level `k`.
fn is_level_op(k: u8, tok: &Token) -> (b: bool)
    ensures
        b == (level_op(k as nat, *tok) is Some),
{
    match tok {
        Token::Star | Token::Slash => k == 1,
        Token::Plus | Token::Minus => k == 2,
        Token::Less | Token::LessEqual | Token::Greater | Token::GreaterEqual => k == 3,
        Token::Equal | Token::Unequal => k == 4,
        Token::And => k == 5,
        Token::Or => k == 6,
        _ => false,
    }
}

/// Reading the expected token `exp` at position `p`.
fn check_expect(t: &Vec<Token>, p: usize, exp: Token, why: Expectation) -> (r: Result<(), ParseError>)
    ensures
        r == expect_syntax(t@, p as nat, exp, why),
{
    if p < t.len() {
        if t[p].same_as(&exp) {
            Ok(())
        } else {
            Err(ParseError::Expected(exp, why, Some(t[p].clone())))
        }
    } else {
        Err(ParseError::Expected(exp, why, None))
    }
}

/// The number of tokens that the factor at `p` takes, or the grammar's error.
fn check_factor(t: &Vec<Token>, p: usize) -> (r: Result<usize, ParseError>)
    requires
        p <= t@.len(),
    ensures
        counted(factor_syntax(t@, p as nat), r, p as nat, t@.len()),
    decreases tokens_left(t@, p as nat), 0nat,
{
    if p >= t.len() {
        return Err(ParseError::Factor(None));
    }
    match &t[p] {
        Token::Minus | Token::Tilde | Token::Exclamation => match check_factor(t, p + 1) {
            Ok(c) => Ok(c + 1),
            Err(e) => Err(e),
        },
        Token::OpenParen => match check_expression(t, p + 1) {
            Ok(c) => {
                if p + 1 + c < t.len() {
                    if matches!(t[p + 1 + c], Token::CloseParen) {
                        Ok(c + 2)
                    } else {
                        Err(
                            ParseError::Expected(
                                Token::CloseParen,
                                Expectation::AfterExpression,
                                Some(t[p + 1 + c].clone()),
                            ),
                        )
                    }
                } else {
                    Err(ParseError::Expected(Token::CloseParen, Expectation::AfterExpression, None))
                }
            },
            Err(e) => Err(e),
        },
        Token::LiteralInt(_) | Token::Identifier(_) => Ok(1),
        other => Err(ParseError::Factor(Some(other.clone()))),
    }
}

/// The number of tokens that the expression at `p` takes, or the grammar's error.
fn check_expression(t: &Vec<Token>, p: usize) -> (r: Result<usize, ParseError>)
    requires
        p <= t@.len(),
    ensures
        counted(expression_syntax(t@, p as nat), r, p as nat, t@.len()),
    decreases tokens_left(t@, p as nat), 8nat,
{
    if p < t.len() && p + 1 < t.len() && matches!(t[p], Token::Identifier(_)) && matches!(
        t[p + 1],
        Token::Assign,
    ) {
        match check_expression(t, p + 2) {
            Ok(c) => Ok(c + 2),
            Err(e) => Err(e),
        }
    } else {
        check_level(t, p, 6)
    }
}

/// The number of tokens that precedence level `k` at `p` takes, or the grammar's error.
fn check_level(t: &Vec<Token>, p: usize, k: u8) -> (r: Result<usize, ParseError>)
    requires
        p <= t@.len(),
    ensures
        counted(level_syntax(t@, p as nat, k as nat), r, p as nat, t@.len()),
    decreases tokens_left(t@, p as nat), k + 1,
{
    if k == 0 {
        check_factor(t, p)
    } else {
        match check_level(t, p, k - 1) {
            Ok(c) => {
                let ghost km = (k - 1) as nat;
                assert(level_syntax(t@, p as nat, km) is Ok);
                let len = t.len();
                assert(p + c <= len);
                let ghost left = level_syntax(t@, p as nat, km)->Ok_0.0;
                match check_level_rest(t, k, Ghost(left), p + c) {
                    Ok(c2) => {
                        assert(p + c + c2 <= len);
                        Ok(c + c2)
                    },
                    Err(e) => Err(e),
                }
            },
            Err(e) => Err(e),
        }
    }
}

/// The number of tokens that the operators of level `k` and their operands from `p` on take,
/// after the left operand `left`, or the grammar's error.
fn check_level_rest(t: &Vec<Token>, k: u8, Ghost(left): Ghost<Expression>, p: usize) -> (r: Result<usize, ParseError>)
    requires
        p <= t@.len(),
    ensures
        counted(level_rest_syntax(t@, k as nat, left, p as nat), r, p as nat, t@.len()),
    decreases tokens_left(t@, p as nat), 0nat,
{
    if p < t.len() && k > 0 && is_level_op(k, &t[p]) {
        match check_level(t, p + 1, k - 1) {
            Ok(c) => {
                let ghost op = level_op(k as nat, t@[p as int])->Some_0;
                let ghost right = level_syntax(t@, (p + 1) as nat, (k - 1) as nat)->Ok_0.0;
                match check_level_rest(t, k, Ghost(combine(op, left, right)), p + 1 + c) {
                    Ok(c2) => Ok(1 + c + c2),
                    Err(e) => Err(e),
                }
            },
            Err(e) => Err(e),
        }
    } else {
        Ok(0)
    }
}

/// The number of tokens that the statement at `p` takes and whether it is a `return`
/// statement, or the grammar's error.
fn check_statement(t: &Vec<Token>, p: usize) -> (r: Result<(usize, bool), ParseError>)
    requires
        p <= t@.len(),
    ensures
        (match statement_syntax(t@, p as nat) {
            Ok((item, c)) => r matches Ok((n, ret)) && n == c && p + c <= t@.len() && ret == (
            item matches BlockItem::Stmt(Statement::Ret(_))),
            Err(x) => r == Err::<(usize, bool), ParseError>(x),
        }),
{
    if p >= t.len() {
        return Err(ParseError::StatementEof);
    }
    match &t[p] {
        Token::Keyword(Keyword::RETURN) => match check_expression(t, p + 1) {
            Ok(c) => match check_expect(t, p + 1 + c, Token::Semicolon, Expectation::AfterReturn) {
                Ok(()) => Ok((c + 2, true)),
                Err(e) => Err(e),
            },
            Err(e) => Err(e),
        },
        Token::Keyword(Keyword::INT) => {
            if p + 1 >= t.len() {
                return Err(ParseError::VariableName(None));
            }
            match &t[p + 1] {
                Token::Identifier(_) => {
                    if p + 2 >= t.len() {
                        return Err(ParseError::DeclarationEnd(None));
                    }
                    match &t[p + 2] {
                        Token::Semicolon => Ok((3, false)),
                        Token::Assign => match check_expression(t, p + 3) {
                            Ok(c) => match check_expect(
                                t,
                                p + 3 + c,
                                Token::Semicolon,
                                Expectation::AfterInitialization,
                            ) {
                                Ok(()) => Ok((c + 4, false)),
                                Err(e) => Err(e),
                            },
                            Err(e) => Err(e),
                        },
                        other => Err(ParseError::DeclarationEnd(Some(other.clone()))),
                    }
                },
                other => Err(ParseError::VariableName(Some(other.clone()))),
            }
        },
        _ => match check_expression(t, p) {
            Ok(c) => match check_expect(t, p + c, Token::Semicolon, Expectation::AfterExpressionStatement) {
                Ok(()) => Ok((c + 1, false)),
                Err(e) => Err(e),
            },
            Err(e) => Err(e),
        },
    }
}

/// The number of tokens that the function body at `p` takes, or the grammar's error.
fn check_body(t: &Vec<Token>, p: usize) -> (r: Result<usize, ParseError>)
    requires
        p <= t@.len(),
    ensures
        counted(body_syntax(t@, p as nat), r, p as nat, t@.len()),
    decreases tokens_left(t@, p as nat),
{
    if p < t.len() && matches!(t[p], Token::CloseBrace) {
        return Ok(0);
    }
    match check_statement(t, p) {
        Ok((c, is_return)) => {
            if is_return {
                Ok(c)
            } else {
                match check_body(t, p + c) {
                    Ok(c2) => Ok(c + c2),
                    Err(e) => Err(e),
                }
            }
        },
        Err(e) => Err(e),
    }
}

/// The number of tokens that the function at `p` takes, or the grammar's error.
fn check_function(t: &Vec<Token>, p: usize) -> (r: Result<usize, ParseError>)
    requires
        p <= t@.len(),
    ensures
        (match function_syntax(t@, p as nat) {
            Ok((_, _, c)) => r matches Ok(n) && n == c && p + c <= t@.len(),
            Err(x) => r == Err::<usize, ParseError>(x),
        }),
{
    match check_expect(t, p, Token::Keyword(Keyword::INT), Expectation::FunctionType) {
        Ok(()) => {},
        Err(e) => return Err(e),
    }
    if !(p < t.len() && p + 1 < t.len() && matches!(t[p + 1], Token::Identifier(_))) {
        return Err(ParseError::FunctionName);
    }
    match check_expect(t, p + 2, Token::OpenParen, Expectation::FunctionParameters) {
        Ok(()) => {},
        Err(e) => return Err(e),
    }
    match check_expect(t, p + 3, Token::CloseParen, Expectation::FunctionParameters) {
        Ok(()) => {},
        Err(e) => return Err(e),
    }
    match check_expect(t, p + 4, Token::OpenBrace, Expectation::FunctionStart) {
        Ok(()) => {},
        Err(e) => return Err(e),
    }
    let c = match check_body(t, p + 5) {
        Ok(c) => c,
        Err(e) => return Err(e),
    };
    match check_expect(t, p + 5 + c, Token::CloseBrace, Expectation::FunctionEnd) {
        Ok(()) => Ok(c + 6),
        Err(e) => Err(e),
    }
}

/// Whether the tokens from `p` to the end form a program, or the grammar's error.
fn check_program_from(t: &Vec<Token>, p: usize) -> (r: Result<(), ParseError>)
    requires
        p <= t@.len(),
    ensures
        r == outcome(program_syntax(t@, p as nat)),
    decreases tokens_left(t@, p as nat),
{
    if p >= t.len() {
        return Ok(());
    }
    match check_function(t, p) {
        Ok(c) => check_program_from(t, p + c),
        Err(e) => Err(e),
    }
}


// ---------------------------------------------------------------------------------------------
// Precedence
// ---------------------------------------------------------------------------------------------

/// The expression that a lone integer literal or name stands for.
pub open spec fn atom_of(tok: Token) -> Option<Expression> {
    match tok {
        Token::LiteralInt(v) => Some(Expression::LiteralInt(v)),
        Token::Identifier(n) => Some(Expression::Var(n)),
        _ => None,
    }
}

/// No infix operator of any precedence level stands at position `q`.
pub open spec fn no_infix_at(t: Seq<Token>, q: nat) -> bool {
    q >= t.len() || forall|j: nat| #[trigger] level_op(j, t[q as int]) is None
}

proof fn lemma_level_op_unique(tok: Token, k: nat, j: nat)
    requires
        level_op(k, tok) is Some,
        j != k,
    ensures
        level_op(j, tok) is None,
{
}

proof fn lemma_rest_stops(t: Seq<Token>, j: nat, left: Expression, q: nat)
    requires
        no_infix_at(t, q),
    ensures
        level_rest_syntax(t, j, left, q) == Ok::<(Expression, nat), ParseError>((left, 0)),
{
    if q < t.len() && j > 0 {
        assert(level_op(j, t[q as int]) is None);
    }
}

/// A factor followed by no operator of level `m` or below is the whole of level `m`.
proof fn lemma_level_of_factor(t: Seq<Token>, q: nat, m: nat, e: Expression, c: nat)
    requires
        factor_syntax(t, q) == Ok::<(Expression, nat), ParseError>((e, c)),
        forall|j: nat| 1 <= j <= m && q + c < t.len() ==> #[trigger] level_op(j, t[(q + c) as int]) is None,
    ensures
        level_syntax(t, q, m) == Ok::<(Expression, nat), ParseError>((e, c)),
    decreases m,
{
    if m > 0 {
        lemma_level_of_factor(t, q, (m - 1) as nat, e, c);
        if q + c < t.len() {
            assert(level_op(m, t[(q + c) as int]) is None);
        }
        assert(level_rest_syntax(t, m, e, q + c) == Ok::<(Expression, nat), ParseError>((e, 0)));
        assert(level_syntax(t, q, m) == (match level_syntax(t, q, (m - 1) as nat) {
            Ok((l, c1)) => match level_rest_syntax(t, m, l, q + c1) {
                Ok((e2, c2)) => Ok((e2, c1 + c2)),
                Err(x) => Err(x),
            },
            Err(x) => Err(x),
        }));
    } else {
        assert(level_syntax(t, q, 0) == factor_syntax(t, q));
    }
}

/// An operand followed by no operator of the levels above `k` up to `m` stays the whole
/// expression up to level `m`.
proof fn lemma_level_above(t: Seq<Token>, p: nat, k: nat, m: nat, e: Expression, c: nat)
    requires
        level_syntax(t, p, k) == Ok::<(Expression, nat), ParseError>((e, c)),
        forall|j: nat| k < j <= m && p + c < t.len() ==> #[trigger] level_op(j, t[(p + c) as int]) is None,
        k <= m,
    ensures
        level_syntax(t, p, m) == Ok::<(Expression, nat), ParseError>((e, c)),
    decreases m - k,
{
    if k < m {
        lemma_level_above(t, p, k, (m - 1) as nat, e, c);
        if p + c < t.len() {
            assert(level_op(m, t[(p + c) as int]) is None);
        }
        assert(level_rest_syntax(t, m, e, p + c) == Ok::<(Expression, nat), ParseError>((e, 0)));
    }
}

/// An operand of level `k - 1` followed by an operator of level `k`, an atom, and no operator
/// of level `top` or below: from level `k` up to `top` the operator joins the two.
proof fn lemma_operand_op_atom(t: Seq<Token>, q: nat, k: nat, e: Expression, ce: nat, top: nat, m: nat)
    requires
        1 <= k <= m <= top,
        level_syntax(t, q, (k - 1) as nat) == Ok::<(Expression, nat), ParseError>((e, ce)),
        q + ce + 2 <= t.len(),
        level_op(k, t[(q + ce) as int]) is Some,
        atom_of(t[(q + ce + 1) as int]) is Some,
        forall|j: nat| 1 <= j <= top && q + ce + 2 < t.len() ==> #[trigger] level_op(j, t[(q + ce + 2) as int]) is None,
    ensures
        level_syntax(t, q, m) == Ok::<(Expression, nat), ParseError>(
            (combine(level_op(k, t[(q + ce) as int])->Some_0, e, atom_of(t[(q + ce + 1) as int])->Some_0), ce + 2),
        ),
{
    let op = level_op(k, t[(q + ce) as int])->Some_0;
    let b = atom_of(t[(q + ce + 1) as int])->Some_0;
    let whole = combine(op, e, b);
    assert(factor_syntax(t, q + ce + 1) == Ok::<(Expression, nat), ParseError>((b, 1)));
    lemma_level_of_factor(t, q + ce + 1, (k - 1) as nat, b, 1);
    if q + ce + 2 < t.len() {
        assert(level_op(k, t[(q + ce + 2) as int]) is None);
    }
    assert(level_rest_syntax(t, k, whole, q + ce + 2) == Ok::<(Expression, nat), ParseError>((whole, 0)));
    assert(level_rest_syntax(t, k, e, q + ce) == Ok::<(Expression, nat), ParseError>((whole, 2)));
    assert(level_syntax(t, q, k) == Ok::<(Expression, nat), ParseError>((whole, ce + 2)));
    lemma_level_above(t, q, k, m, whole, ce + 2);
}

/// A unary operator applies to the factor that follows it only. In `u a op b`, with `u` a
/// unary operator, `a` and `b` integer literals or names, and `op` an infix operator of any
/// precedence level, followed by no further operator, the expression is `op` applied to `u a`
/// and `b`, taking four tokens; never `u` applied to `a op b`.
pub proof fn lemma_unary_binds_tightest(t: Seq<Token>, p: nat, k: nat)
    requires
        p + 4 <= t.len(),
        unary_op_of(t[p as int]) is Some,
        atom_of(t[(p + 1) as int]) is Some,
        level_op(k, t[(p + 2) as int]) is Some,
        atom_of(t[(p + 3) as int]) is Some,
        no_infix_at(t, p + 4),
    ensures
        expression_syntax(t, p) == Ok::<(Expression, nat), ParseError>(
            (
                combine(
                    level_op(k, t[(p + 2) as int])->Some_0,
                    Expression::UnOp(unary_op_of(t[p as int])->Some_0, Box::new(atom_of(t[(p + 1) as int])->Some_0)),
                    atom_of(t[(p + 3) as int])->Some_0,
                ),
                4,
            ),
        ),
{
    let u = unary_op_of(t[p as int])->Some_0;
    let a = atom_of(t[(p + 1) as int])->Some_0;
    let b = atom_of(t[(p + 3) as int])->Some_0;
    let op = level_op(k, t[(p + 2) as int])->Some_0;
    let ua = Expression::UnOp(u, Box::new(a));
    let whole = combine(op, ua, b);
    assert(1 <= k <= 6);
    assert(factor_syntax(t, p + 1) == Ok::<(Expression, nat), ParseError>((a, 1)));
    assert(factor_syntax(t, p) == Ok::<(Expression, nat), ParseError>((ua, 2)));
    assert(factor_syntax(t, p + 3) == Ok::<(Expression, nat), ParseError>((b, 1)));
    assert forall|j: nat| 1 <= j <= (k - 1) as nat && p + 2 < t.len() implies #[trigger] level_op(
        j,
        t[(p + 2) as int],
    ) is None by {
        lemma_level_op_unique(t[(p + 2) as int], k, j);
    }
    lemma_level_of_factor(t, p, (k - 1) as nat, ua, 2);
    lemma_operand_op_atom(t, p, k, ua, 2, 6, 6);
    assert(!(t[p as int] is Identifier));
}

/// Precedence and grouping of infix operators. In `a op1 b op2 c`, with `a`, `b` and `c`
/// integer literals or names, `op1` of precedence level `k1`, `op2` of level `k2`, and no
/// operator after `c`: where `op2` binds more tightly (`k2 < k1`) the expression is `op1`
/// applied to `a` and `b op2 c`; otherwise, operators of one level included, it is `op2`
/// applied to `a op1 b` and `c`. It takes five tokens.
pub proof fn lemma_infix_grouping(t: Seq<Token>, p: nat, k1: nat, k2: nat)
    requires
        p + 5 <= t.len(),
        atom_of(t[p as int]) is Some,
        level_op(k1, t[(p + 1) as int]) is Some,
        atom_of(t[(p + 2) as int]) is Some,
        level_op(k2, t[(p + 3) as int]) is Some,
        atom_of(t[(p + 4) as int]) is Some,
        no_infix_at(t, p + 5),
    ensures
        ({
            let a = atom_of(t[p as int])->Some_0;
            let b = atom_of(t[(p + 2) as int])->Some_0;
            let c = atom_of(t[(p + 4) as int])->Some_0;
            let op1 = level_op(k1, t[(p + 1) as int])->Some_0;
            let op2 = level_op(k2, t[(p + 3) as int])->Some_0;
            expression_syntax(t, p) == Ok::<(Expression, nat), ParseError>(
                (
                    if k2 < k1 {
                        combine(op1, a, combine(op2, b, c))
                    } else {
                        combine(op2, combine(op1, a, b), c)
                    },
                    5,
                ),
            )
        }),
{
    let a = atom_of(t[p as int])->Some_0;
    let b = atom_of(t[(p + 2) as int])->Some_0;
    let c = atom_of(t[(p + 4) as int])->Some_0;
    let op1 = level_op(k1, t[(p + 1) as int])->Some_0;
    let op2 = level_op(k2, t[(p + 3) as int])->Some_0;
    assert(1 <= k1 <= 6 && 1 <= k2 <= 6);
    assert(factor_syntax(t, p) == Ok::<(Expression, nat), ParseError>((a, 1)));
    assert(factor_syntax(t, p + 2) == Ok::<(Expression, nat), ParseError>((b, 1)));
    assert forall|j: nat| j != k1 implies #[trigger] level_op(j, t[(p + 1) as int]) is None by {
        lemma_level_op_unique(t[(p + 1) as int], k1, j);
    }
    assert forall|j: nat| j != k2 implies #[trigger] level_op(j, t[(p + 3) as int]) is None by {
        lemma_level_op_unique(t[(p + 3) as int], k2, j);
    }
    assert forall|j: nat| p + 5 < t.len() implies #[trigger] level_op(j, t[(p + 5) as int]) is None by {}
    lemma_level_of_factor(t, p, (k1 - 1) as nat, a, 1);
    if k2 < k1 {
        lemma_level_of_factor(t, p + 2, (k2 - 1) as nat, b, 1);
        lemma_operand_op_atom(t, p + 2, k2, b, 1, 6, (k1 - 1) as nat);
        let inner = combine(op2, b, c);
        assert(level_rest_syntax(t, k1, combine(op1, a, inner), p + 5) == Ok::<(Expression, nat), ParseError>(
            (combine(op1, a, inner), 0),
        ));
        assert(level_rest_syntax(t, k1, a, p + 1) == Ok::<(Expression, nat), ParseError>(
            (combine(op1, a, inner), 4),
        ));
        assert(level_syntax(t, p, k1) == Ok::<(Expression, nat), ParseError>((combine(op1, a, inner), 5)));
        lemma_level_above(t, p, k1, 6, combine(op1, a, inner), 5);
    } else if k1 < k2 {
        lemma_operand_op_atom(t, p, k1, a, 1, (k2 - 1) as nat, (k2 - 1) as nat);
        lemma_operand_op_atom(t, p, k2, combine(op1, a, b), 3, 6, 6);
    } else {
        lemma_level_of_factor(t, p + 2, (k1 - 1) as nat, b, 1);
        assert(factor_syntax(t, p + 4) == Ok::<(Expression, nat), ParseError>((c, 1)));
        lemma_level_of_factor(t, p + 4, (k1 - 1) as nat, c, 1);
        let left = combine(op1, a, b);
        let whole = combine(op2, left, c);
        assert(level_rest_syntax(t, k1, whole, p + 5) == Ok::<(Expression, nat), ParseError>((whole, 0)));
        assert(level_rest_syntax(t, k1, left, p + 3) == Ok::<(Expression, nat), ParseError>((whole, 2)));
        assert(level_rest_syntax(t, k1, a, p + 1) == Ok::<(Expression, nat), ParseError>((whole, 4)));
        assert(level_syntax(t, p, k1) == Ok::<(Expression, nat), ParseError>((whole, 5)));
        lemma_level_above(t, p, k1, 6, whole, 5);
    }
    assert(!(t[(p + 1) as int] is Assign));
}

/// The operators of C by precedence, binding tightest first: `*` `/`, then `+` `-`, then `<`
/// `<=` `>` `>=`, then `==` `!=`, then `&&`, then `||`; and the unary operators `-` `~` `!`.
pub proof fn lemma_operator_table()
    ensures
        level_op(1, Token::Star) == Some(Infix::Bin(BinaryOp::Multiply)),
        level_op(1, Token::Slash) == Some(Infix::Bin(BinaryOp::Divide)),
        level_op(2, Token::Plus) == Some(Infix::Bin(BinaryOp::Add)),
        level_op(2, Token::Minus) == Some(Infix::Bin(BinaryOp::Subtract)),
        level_op(3, Token::Less) == Some(Infix::Bin(BinaryOp::Less)),
        level_op(3, Token::LessEqual) == Some(Infix::Bin(BinaryOp::LessEqual)),
        level_op(3, Token::Greater) == Some(Infix::Bin(BinaryOp::Greater)),
        level_op(3, Token::GreaterEqual) == Some(Infix::Bin(BinaryOp::GreaterEqual)),
        level_op(4, Token::Equal) == Some(Infix::Bin(BinaryOp::Equal)),
        level_op(4, Token::Unequal) == Some(Infix::Bin(BinaryOp::Unequal)),
        level_op(5, Token::And) == Some(Infix::Log(LogicalOp::And)),
        level_op(6, Token::Or) == Some(Infix::Log(LogicalOp::Or)),
        unary_op_of(Token::Minus) == Some(UnaryOp::Negate),
        unary_op_of(Token::Tilde) == Some(UnaryOp::BitwiseNot),
        unary_op_of(Token::Exclamation) == Some(UnaryOp::LogicalNot),
        forall|op: Infix, l: Expression, r: Expression| #[trigger] combine(op, l, r) == match op {
            Infix::Bin(b) => Expression::BinOp(b, Box::new(l), Box::new(r)),
            Infix::Log(o) => Expression::LogOp(o, Box::new(l), Box::new(r)),
        },
{
}

/// A `return` statement, if any, comes last in a list of block items.
pub open spec fn return_comes_last(items: Seq<BlockItem>) -> bool {
    forall|k: int|
        0 <= k < items.len() - 1 ==> !(#[trigger] items[k] matches BlockItem::Stmt(
            Statement::Ret(_),
        ))
}

/// A function body ends with its first `return` statement: in every body that the parser
/// reads, a `return` statement can only come last.
pub proof fn lemma_body_return_comes_last(t: Seq<Token>, p: nat)
    requires
        body_syntax(t, p) is Ok,
    ensures
        return_comes_last(body_syntax(t, p)->Ok_0.0),
    decreases tokens_left(t, p),
{
    if !(token_at(t, p) matches Some(Token::CloseBrace)) {
        let (item, c) = statement_syntax(t, p)->Ok_0;
        if !(item matches BlockItem::Stmt(Statement::Ret(_))) {
            lemma_body_return_comes_last(t, p + c);
            let rest = body_syntax(t, p + c)->Ok_0.0;
            let items = seq![item] + rest;
            assert forall|k: int| 0 <= k < items.len() - 1 implies !(
            #[trigger] items[k] matches BlockItem::Stmt(Statement::Ret(_))) by {
                if k > 0 {
                    assert(items[k] == rest[k - 1]);
                }
            }
        }
    }
}

/// Every function of a program that the parser reads has its `return` statement, if any, last.
pub proof fn lemma_program_returns_come_last(t: Seq<Token>, p: nat)
    requires
        program_syntax(t, p) is Ok,
    ensures
        forall|k: int|
            0 <= k < program_syntax(t, p)->Ok_0.len() ==> return_comes_last(
                (#[trigger] program_syntax(t, p)->Ok_0[k]).1,
            ),
    decreases tokens_left(t, p),
{
    if p < t.len() {
        let (name, body, c) = function_syntax(t, p)->Ok_0;
        lemma_function_body_return_comes_last(t, p);
        lemma_program_returns_come_last(t, p + c);
        let fs = program_syntax(t, p)->Ok_0;
        let rest = program_syntax(t, p + c)->Ok_0;
        assert forall|k: int| 0 <= k < fs.len() implies return_comes_last(
            (#[trigger] fs[k]).1,
        ) by {
            if k > 0 {
                assert(fs[k] == rest[k - 1]);
            }
        }
    }
}

proof fn lemma_function_body_return_comes_last(t: Seq<Token>, p: nat)
    requires
        function_syntax(t, p) is Ok,
    ensures
        return_comes_last(function_syntax(t, p)->Ok_0.1),
{
    lemma_body_return_comes_last(t, p + 5);
}

} // verus!
