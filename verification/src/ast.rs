use vstd::prelude::*;
use crate::text::{append_i32, int_text};

verus! {

/// Root of the syntax tree: a named program made of functions.
#[derive(Debug)]
pub struct Program {
    pub name: String,
    pub child_functions: Vec<Function>,
    pub pretty_ast: String,
}

/// A function definition: its name and the block items of its body.
#[derive(Debug)]
pub struct Function {
    pub name: String,
    pub child_block_items: Vec<BlockItem>,
}

/// An item of a function body: a statement, or a declaration `int a (= 5);`.
#[derive(Debug)]
pub enum BlockItem {
    Stmt(Statement),
    Decl(String, Option<Expression>),
}

/// A statement.
#[derive(Debug)]
pub enum Statement {
    /// `return x`
    Ret(Expression),
    /// `x + 5`, `!x`
    Expr(Expression),
    /// `if (expr) statement1 (else statement2)`
    Cond(Expression, Box<Statement>, Option<Box<Statement>>),
}

/// An expression.
#[derive(Debug)]
pub enum Expression {
    LiteralInt(i32),
    UnOp(UnaryOp, Box<Expression>),
    BinOp(BinaryOp, Box<Expression>, Box<Expression>),
    LogOp(LogicalOp, Box<Expression>, Box<Expression>),
    Assign(String, Box<Expression>),
    Var(String),
}

/// Unary operators: `-`, `~`, `!`.
#[derive(Clone, Copy, Debug, PartialEq, Eq, Structural)]
pub enum UnaryOp {
    Negate,
    BitwiseNot,
    LogicalNot,
}

/// Binary operators, ordered by precedence.
#[derive(Clone, Copy, Debug, PartialEq, Eq, Structural)]
pub enum BinaryOp {
    Multiply,
    Divide,
    Add,
    Subtract,
    Less,
    LessEqual,
    Greater,
    GreaterEqual,
    Equal,
    Unequal,
}

/// Logical operators, which short-circuit: `&&`, `||`.
#[derive(Clone, Copy, Debug, PartialEq, Eq, Structural)]
pub enum LogicalOp {
    And,
    Or,
}

/// The text between the two operands of a binary operator, closing parenthesis excluded.
pub open spec fn binop_text(op: BinaryOp) -> Seq<char> {
    match op {
        BinaryOp::Add => " + "@,
        BinaryOp::Subtract => " - "@,
        BinaryOp::Multiply => " * "@,
        BinaryOp::Divide => " / "@,
        BinaryOp::Less => " < "@,
        BinaryOp::LessEqual => " <= "@,
        BinaryOp::Greater => " > "@,
        BinaryOp::GreaterEqual => " >= "@,
        BinaryOp::Equal => " == "@,
        BinaryOp::Unequal => " != "@,
    }
}

/// The text between the two operands of a logical operator.
pub open spec fn logop_text(op: LogicalOp) -> Seq<char> {
    match op {
        LogicalOp::And => " && "@,
        LogicalOp::Or => " || "@,
    }
}

/// The text that opens a unary operation, before its operand.
pub open spec fn unop_text(op: UnaryOp) -> Seq<char> {
    match op {
        UnaryOp::Negate => "-<"@,
        UnaryOp::BitwiseNot => "~<"@,
        UnaryOp::LogicalNot => "!<"@,
    }
}

/// The pretty-printed form of an expression: operations fully parenthesised.
pub open spec fn expr_text(e: Expression) -> Seq<char>
    decreases e,
{
    match e {
        Expression::LiteralInt(v) => int_text(v as int),
        Expression::UnOp(op, x) => unop_text(op) + expr_text(*x) + ">"@,
        Expression::BinOp(op, a, b) => "("@ + expr_text(*a) + binop_text(op) + expr_text(*b) + ")"@,
        Expression::LogOp(op, a, b) => "("@ + expr_text(*a) + logop_text(op) + expr_text(*b) + ")"@,
        Expression::Assign(name, x) => name@ + " = "@ + expr_text(*x),
        Expression::Var(name) => name@,
    }
}

/// The printed form of an operation is built from the printed forms of its operands, each
/// whole and with its own parentheses: a binary or logical operation is `(`, the first
/// operand's text, the operator, the second operand's text and `)`, whatever the operands
/// are; a unary operation is its operator, `<`, the operand's text and `>`.
pub proof fn lemma_print_is_compositional(
    op: BinaryOp,
    lop: LogicalOp,
    uop: UnaryOp,
    a: Expression,
    b: Expression,
)
    ensures
        expr_text(Expression::BinOp(op, Box::new(a), Box::new(b))) == "("@ + expr_text(a) + " "@
            + binop_symbol(op) + " "@ + expr_text(b) + ")"@,
        expr_text(Expression::LogOp(lop, Box::new(a), Box::new(b))) == "("@ + expr_text(a) + " "@
            + logop_symbol(lop) + " "@ + expr_text(b) + ")"@,
        expr_text(Expression::UnOp(uop, Box::new(a))) == unop_symbol(uop) + "<"@ + expr_text(a)
            + ">"@,
        expr_text(Expression::BinOp(op, Box::new(a), Box::new(b))).last() == ')',
        expr_text(Expression::BinOp(op, Box::new(a), Box::new(b))).first() == '(',
{
    reveal_strlit("(");
    reveal_strlit(")");
    reveal_strlit(" ");
    reveal_strlit("<");
    reveal_strlit(">");
    reveal_strlit(" + ");
    reveal_strlit(" - ");
    reveal_strlit(" * ");
    reveal_strlit(" / ");
    reveal_strlit(" < ");
    reveal_strlit(" <= ");
    reveal_strlit(" > ");
    reveal_strlit(" >= ");
    reveal_strlit(" == ");
    reveal_strlit(" != ");
    reveal_strlit(" && ");
    reveal_strlit(" || ");
    reveal_strlit("-<");
    reveal_strlit("~<");
    reveal_strlit("!<");
    reveal_strlit("+");
    reveal_strlit("-");
    reveal_strlit("*");
    reveal_strlit("/");
    reveal_strlit("<=");
    reveal_strlit(">=");
    reveal_strlit("==");
    reveal_strlit("!=");
    reveal_strlit("&&");
    reveal_strlit("||");
    reveal_strlit("~");
    reveal_strlit("!");
    let t = expr_text(Expression::BinOp(op, Box::new(a), Box::new(b)));
    assert(binop_text(op) =~= " "@ + binop_symbol(op) + " "@);
    assert(logop_text(lop) =~= " "@ + logop_symbol(lop) + " "@);
    assert(unop_text(uop) =~= unop_symbol(uop) + "<"@);
    assert(t =~= "("@ + expr_text(a) + " "@ + binop_symbol(op) + " "@ + expr_text(b) + ")"@);
}

/// The printed form of a statement or block item is built from the printed form of its
/// expression, and that of a list of block items is the items' texts one after the other.
pub proof fn lemma_print_items_compositional(x: Expression, name: String, items: Seq<BlockItem>, item: BlockItem)
    ensures
        stmt_text(Statement::Ret(x)) == "  RETURN EXPR["@ + expr_text(x) + "]\n"@,
        stmt_text(Statement::Expr(x)) == "  EXPR["@ + expr_text(x) + "]\n"@,
        block_item_text(BlockItem::Stmt(Statement::Ret(x))) == "  RETURN EXPR["@ + expr_text(x) + "]\n\n"@,
        block_item_text(BlockItem::Decl(name, Some(x))) == "  DECLARE VAR["@ + name@ + "] = EXPR["@
            + expr_text(x) + "]\n"@,
        block_item_text(BlockItem::Decl(name, None)) == "  DECLARE VAR["@ + name@ + "]\n"@,
        block_items_text(items.push(item)) == block_items_text(items) + block_item_text(item),
        block_items_text(Seq::empty()) == Seq::<char>::empty(),
{
    reveal_strlit("]");
    reveal_strlit("\n");
    reveal_strlit("]\n");
    reveal_strlit("]\n\n");
    reveal_strlit(" = EXPR[");
    assert(items.push(item).drop_last() =~= items);
    assert("]"@ + "\n"@ =~= "]\n"@);
    assert("]"@ + "\n"@ + "\n"@ =~= "]\n\n"@);
    assert(stmt_text(Statement::Ret(x)) =~= "  RETURN EXPR["@ + expr_text(x) + "]\n"@);
    assert(stmt_text(Statement::Expr(x)) =~= "  EXPR["@ + expr_text(x) + "]\n"@);
    assert(block_item_text(BlockItem::Stmt(Statement::Ret(x))) =~= "  RETURN EXPR["@ + expr_text(x)
        + "]\n\n"@);
    reveal_strlit("] = EXPR[");
    assert("]"@ + " = EXPR["@ =~= "] = EXPR["@);
    assert(block_item_text(BlockItem::Decl(name, Some(x))) =~= "  DECLARE VAR["@ + name@
        + "] = EXPR["@ + expr_text(x) + "]\n"@);
    assert(block_item_text(BlockItem::Decl(name, None)) =~= "  DECLARE VAR["@ + name@ + "]\n"@);
}

/// The symbol of a binary operator in C.
pub open spec fn binop_symbol(op: BinaryOp) -> Seq<char> {
    match op {
        BinaryOp::Add => "+"@,
        BinaryOp::Subtract => "-"@,
        BinaryOp::Multiply => "*"@,
        BinaryOp::Divide => "/"@,
        BinaryOp::Less => "<"@,
        BinaryOp::LessEqual => "<="@,
        BinaryOp::Greater => ">"@,
        BinaryOp::GreaterEqual => ">="@,
        BinaryOp::Equal => "=="@,
        BinaryOp::Unequal => "!="@,
    }
}

/// The symbol of a logical operator in C.
pub open spec fn logop_symbol(op: LogicalOp) -> Seq<char> {
    match op {
        LogicalOp::And => "&&"@,
        LogicalOp::Or => "||"@,
    }
}

/// The symbol of a unary operator in C.
pub open spec fn unop_symbol(op: UnaryOp) -> Seq<char> {
    match op {
        UnaryOp::Negate => "-"@,
        UnaryOp::BitwiseNot => "~"@,
        UnaryOp::LogicalNot => "!"@,
    }
}

/// The pretty-printed form of a statement, ending in a newline.
pub open spec fn stmt_text(s: Statement) -> Seq<char>
    decreases s,
{
    match s {
        Statement::Expr(x) => "  EXPR["@ + expr_text(x) + "]"@ + "\n"@,
        Statement::Ret(x) => "  RETURN EXPR["@ + expr_text(x) + "]"@ + "\n"@,
        Statement::Cond(x, a, b) => "  IF("@ + expr_text(x) + ")"@ + "    EXPR["@ + stmt_text(*a)
            + "]"@ + match b {
            Some(b) => "  ELSE\n    EXPR["@ + stmt_text(*b) + "]"@,
            None => Seq::empty(),
        } + "\n"@,
    }
}

/// The pretty-printed form of a block item, ending in a newline.
pub open spec fn block_item_text(item: BlockItem) -> Seq<char> {
    match item {
        BlockItem::Stmt(x) => stmt_text(x) + "\n"@,
        BlockItem::Decl(var, x) => "  DECLARE VAR["@ + var@ + "]"@ + match x {
            Some(e) => " = EXPR["@ + expr_text(e) + "]"@,
            None => Seq::empty(),
        } + "\n"@,
    }
}

/// The texts of the block items, one after the other.
pub open spec fn block_items_text(items: Seq<BlockItem>) -> Seq<char>
    decreases items.len(),
{
    if items.len() == 0 {
        Seq::empty()
    } else {
        block_items_text(items.drop_last()) + block_item_text(items.last())
    }
}

/// The pretty-printed form of a function.
pub open spec fn function_text(f: Function) -> Seq<char> {
    "FUNC "@ + f.name@ + ":\n"@ + block_items_text(f.child_block_items@)
}

/// The texts of the functions, one after the other.
pub open spec fn functions_text(fs: Seq<Function>) -> Seq<char>
    decreases fs.len(),
{
    if fs.len() == 0 {
        Seq::empty()
    } else {
        functions_text(fs.drop_last()) + function_text(fs.last())
    }
}

/// The pretty-printed form of a whole program.
pub open spec fn program_text(name: Seq<char>, fs: Seq<Function>) -> Seq<char> {
    "PROGRAM "@ + name + "\n"@ + functions_text(fs)
}

impl Program {
    /// A program with the given name, no functions and an empty pretty-printed tree.
    pub fn new(name: String) -> (p: Self)
        ensures
            p.name@ == name@,
            p.child_functions@.len() == 0,
            p.pretty_ast@ == Seq::<char>::empty(),
    {
        Program { name: name, child_functions: Vec::new(), pretty_ast: String::new() }
    }

    /// Appends the pretty-printed tree of the program to `pretty_ast`.
    pub fn build_pretty_ast(&mut self)
        ensures
            final(self).name == old(self).name,
            final(self).child_functions == old(self).child_functions,
            final(self).pretty_ast@ == old(self).pretty_ast@ + program_text(
                old(self).name@,
                old(self).child_functions@,
            ),
    {
        self.pretty_ast.append("PROGRAM ");
        self.pretty_ast.append(self.name.as_str());
        self.pretty_ast.append("\n");
        let ghost start = self.pretty_ast@;
        let n = self.child_functions.len();
        for i in 0..n
            invariant
                n == self.child_functions@.len(),
                self.name == old(self).name,
                self.child_functions == old(self).child_functions,
                self.pretty_ast@ == start + functions_text(self.child_functions@.take(i as int)),
        {
            let f = self.child_functions[i].print();
            self.pretty_ast.append(f.as_str());
            assert(self.child_functions@.take(i + 1).drop_last() =~= self.child_functions@.take(
                i as int,
            ));
        }
        assert(self.child_functions@.take(n as int) =~= self.child_functions@);
    }
}

impl Function {
    /// The pretty-printed form of the function.
    pub fn print(&self) -> (s: String)
        ensures
            s@ == function_text(*self),
    {
        let mut func_str = String::new();
        func_str.append("FUNC ");
        func_str.append(self.name.as_str());
        func_str.append(":\n");
        let ghost start = func_str@;
        let n = self.child_block_items.len();
        for i in 0..n
            invariant
                n == self.child_block_items@.len(),
                func_str@ == start + block_items_text(self.child_block_items@.take(i as int)),
        {
            let t = self.child_block_items[i].print();
            func_str.append(t.as_str());
            assert(self.child_block_items@.take(i + 1).drop_last()
                =~= self.child_block_items@.take(i as int));
        }
        assert(self.child_block_items@.take(n as int) =~= self.child_block_items@);
        func_str
    }
}

impl BlockItem {
    /// The pretty-printed form of the block item.
    pub fn print(&self) -> (s: String)
        ensures
            s@ == block_item_text(*self),
    {
        let mut stmt_str = String::new();
        match self {
            BlockItem::Stmt(x) => {
                let t = x.print();
                stmt_str.append(t.as_str());
            },
            BlockItem::Decl(var, x) => {
                stmt_str.append("  DECLARE VAR[");
                stmt_str.append(var.as_str());
                stmt_str.append("]");
                match x {
                    Some(e) => {
                        stmt_str.append(" = EXPR[");
                        let t = e.print();
                        stmt_str.append(t.as_str());
                        stmt_str.append("]");
                    },
                    None => {},
                }
            },
        }
        stmt_str.append("\n");
        stmt_str
    }
}

impl Statement {
    /// The pretty-printed form of the statement.
    pub fn print(&self) -> (s: String)
        ensures
            s@ == stmt_text(*self),
        decreases self,
    {
        let mut stmt_str = String::new();
        match self {
            Statement::Expr(x) => {
                stmt_str.append("  EXPR[");
                let t = x.print();
                stmt_str.append(t.as_str());
                stmt_str.append("]");
            },
            Statement::Ret(x) => {
                stmt_str.append("  RETURN EXPR[");
                let t = x.print();
                stmt_str.append(t.as_str());
                stmt_str.append("]");
            },
            Statement::Cond(x, a, b) => {
                stmt_str.append("  IF(");
                let t = x.print();
                stmt_str.append(t.as_str());
                stmt_str.append(")");
                stmt_str.append("    EXPR[");
                let t = a.print();
                stmt_str.append(t.as_str());
                stmt_str.append("]");
                match b {
                    Some(b) => {
                        stmt_str.append("  ELSE\n    EXPR[");
                        let t = b.print();
                        stmt_str.append(t.as_str());
                        stmt_str.append("]");
                    },
                    None => {},
                }
            },
        }
        stmt_str.append("\n");
        stmt_str
    }
}

impl Expression {
    /// The pretty-printed form of the expression.
    pub fn print(&self) -> (s: String)
        ensures
            s@ == expr_text(*self),
        decreases self,
    {
        let mut expr_str = String::new();
        match self {
            Expression::LiteralInt(val) => {
                append_i32(&mut expr_str, *val);
            },
            Expression::UnOp(op, operand) => {
                match op {
                    UnaryOp::Negate => expr_str.append("-<"),
                    UnaryOp::BitwiseNot => expr_str.append("~<"),
                    UnaryOp::LogicalNot => expr_str.append("!<"),
                }
                let t = operand.print();
                expr_str.append(t.as_str());
                expr_str.append(">");
            },
            Expression::BinOp(op, operand1, operand2) => {
                expr_str.append("(");
                let t = operand1.print();
                expr_str.append(t.as_str());
                match op {
                    BinaryOp::Add => expr_str.append(" + "),
                    BinaryOp::Subtract => expr_str.append(" - "),
                    BinaryOp::Multiply => expr_str.append(" * "),
                    BinaryOp::Divide => expr_str.append(" / "),
                    BinaryOp::Less => expr_str.append(" < "),
                    BinaryOp::LessEqual => expr_str.append(" <= "),
                    BinaryOp::Greater => expr_str.append(" > "),
                    BinaryOp::GreaterEqual => expr_str.append(" >= "),
                    BinaryOp::Equal => expr_str.append(" == "),
                    BinaryOp::Unequal => expr_str.append(" != "),
                }
                let t = operand2.print();
                expr_str.append(t.as_str());
                expr_str.append(")");
            },
            Expression::LogOp(op, operand1, operand2) => {
                expr_str.append("(");
                let t = operand1.print();
                expr_str.append(t.as_str());
                match op {
                    LogicalOp::And => expr_str.append(" && "),
                    LogicalOp::Or => expr_str.append(" || "),
                }
                let t = operand2.print();
                expr_str.append(t.as_str());
                expr_str.append(")");
            },
            Expression::Assign(var_name, operand) => {
                expr_str.append(var_name.as_str());
                expr_str.append(" = ");
                let t = operand.print();
                expr_str.append(t.as_str());
            },
            Expression::Var(var_name) => {
                expr_str.append(var_name.as_str());
            },
        }
        expr_str
    }
}

} // verus!
