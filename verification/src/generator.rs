use vstd::prelude::*;
use vstd::pervasive::unreached;
use crate::ast::{BinaryOp, BlockItem, Expression, Function, LogicalOp, Program, Statement, UnaryOp};
use crate::text::{append_i32, int_text};

verus! {

// ---------------------------------------------------------------------------------------------
// Instructions
// ---------------------------------------------------------------------------------------------

/// The x86-64 instructions (AT&T syntax) that the generator emits for expressions and
/// declarations; labels take the number of the logical operation that they belong to.
#[derive(Clone, Copy, Debug, PartialEq, Eq, Structural)]
pub enum Instr {
    /// `movl $v, %eax`
    MovImm(i32),
    /// `negl %eax`
    Neg,
    /// `notl %eax`
    Not,
    /// `cmpl $0, %eax`
    CmpZeroEax,
    /// `cmpl $0, %ecx`
    CmpZeroEcx,
    /// `cmpl %eax, %ecx`
    CmpEaxEcx,
    /// `sete %al`
    SetE,
    /// `setne %al`
    SetNe,
    /// `setl %al`
    SetL,
    /// `setle %al`
    SetLe,
    /// `setg %al`
    SetG,
    /// `setge %al`
    SetGe,
    /// `push %rax`
    PushRax,
    /// `push %rcx`
    PushRcx,
    /// `pop %rax`
    PopRax,
    /// `pop %rcx`
    PopRcx,
    /// `movl %eax, %ecx`
    MovEaxEcx,
    /// `movl %ecx, %eax`
    MovEcxEax,
    /// `addl %ecx, %eax`
    AddEcxEax,
    /// `subl %eax, %ecx`
    SubEaxEcx,
    /// `imull %ecx, %eax`
    ImulEcxEax,
    /// `cdq`
    Cdq,
    /// `idivl %ecx`
    IdivEcx,
    /// `je _clause2_n`
    JeClause(i32),
    /// `jne _clause2_n`
    JneClause(i32),
    /// `jmp _end_n`
    JmpEnd(i32),
    /// `_clause2_n:`
    ClauseLabel(i32),
    /// `_end_n:`
    EndLabel(i32),
    /// `movl %eax, off(%rbp)`
    Store(i32),
    /// `movl off(%rbp), %eax`
    Load(i32),
}

/// The line of assembly text of an instruction.
pub open spec fn instr_text(i: Instr) -> Seq<char> {
    match i {
        Instr::MovImm(v) => "  movl $"@ + int_text(v as int) + ", %eax\n"@,
        Instr::Neg => "  negl %eax\n"@,
        Instr::Not => "  notl %eax\n"@,
        Instr::CmpZeroEax => "  cmpl $0, %eax\n"@,
        Instr::CmpZeroEcx => "  cmpl $0, %ecx\n"@,
        Instr::CmpEaxEcx => "  cmpl %eax, %ecx\n"@,
        Instr::SetE => "  sete %al\n"@,
        Instr::SetNe => "  setne %al\n"@,
        Instr::SetL => "  setl %al\n"@,
        Instr::SetLe => "  setle %al\n"@,
        Instr::SetG => "  setg %al\n"@,
        Instr::SetGe => "  setge %al\n"@,
        Instr::PushRax => "  push %rax\n"@,
        Instr::PushRcx => "  push %rcx\n"@,
        Instr::PopRax => "  pop %rax\n"@,
        Instr::PopRcx => "  pop %rcx\n"@,
        Instr::MovEaxEcx => "  movl %eax, %ecx\n"@,
        Instr::MovEcxEax => "  movl %ecx, %eax\n"@,
        Instr::AddEcxEax => "  addl %ecx, %eax\n"@,
        Instr::SubEaxEcx => "  subl %eax, %ecx\n"@,
        Instr::ImulEcxEax => "  imull %ecx, %eax\n"@,
        Instr::Cdq => "  cdq\n"@,
        Instr::IdivEcx => "  idivl %ecx\n"@,
        Instr::JeClause(n) => "  je _clause2_"@ + int_text(n as int) + "\n"@,
        Instr::JneClause(n) => "  jne _clause2_"@ + int_text(n as int) + "\n"@,
        Instr::JmpEnd(n) => "  jmp _end_"@ + int_text(n as int) + "\n"@,
        Instr::ClauseLabel(n) => "  _clause2_"@ + int_text(n as int) + ":\n"@,
        Instr::EndLabel(n) => "  _end_"@ + int_text(n as int) + ":\n"@,
        Instr::Store(off) => "  movl %eax, "@ + int_text(off as int) + "(%rbp)\n"@,
        Instr::Load(off) => "  movl "@ + int_text(off as int) + "(%rbp), %eax\n"@,
    }
}

/// Each instruction is one line of AT&T assembly: its mnemonic with the operands in source,
/// destination order, and a label's number written in decimal.
pub proof fn lemma_instruction_lines(v: i32, n: i32)
    ensures
        instr_text(Instr::MovImm(v)) == "  movl $"@ + int_text(v as int) + ", %eax\n"@,
        instr_text(Instr::Neg) == "  negl %eax\n"@,
        instr_text(Instr::Not) == "  notl %eax\n"@,
        instr_text(Instr::CmpZeroEax) == "  cmpl $0, %eax\n"@,
        instr_text(Instr::CmpZeroEcx) == "  cmpl $0, %ecx\n"@,
        instr_text(Instr::CmpEaxEcx) == "  cmpl %eax, %ecx\n"@,
        instr_text(Instr::SetE) == "  sete %al\n"@,
        instr_text(Instr::SetNe) == "  setne %al\n"@,
        instr_text(Instr::SetL) == "  setl %al\n"@,
        instr_text(Instr::SetLe) == "  setle %al\n"@,
        instr_text(Instr::SetG) == "  setg %al\n"@,
        instr_text(Instr::SetGe) == "  setge %al\n"@,
        instr_text(Instr::PushRax) == "  push %rax\n"@,
        instr_text(Instr::PushRcx) == "  push %rcx\n"@,
        instr_text(Instr::PopRax) == "  pop %rax\n"@,
        instr_text(Instr::PopRcx) == "  pop %rcx\n"@,
        instr_text(Instr::MovEaxEcx) == "  movl %eax, %ecx\n"@,
        instr_text(Instr::MovEcxEax) == "  movl %ecx, %eax\n"@,
        instr_text(Instr::AddEcxEax) == "  addl %ecx, %eax\n"@,
        instr_text(Instr::SubEaxEcx) == "  subl %eax, %ecx\n"@,
        instr_text(Instr::ImulEcxEax) == "  imull %ecx, %eax\n"@,
        instr_text(Instr::Cdq) == "  cdq\n"@,
        instr_text(Instr::IdivEcx) == "  idivl %ecx\n"@,
        instr_text(Instr::JeClause(n)) == "  je _clause2_"@ + int_text(n as int) + "\n"@,
        instr_text(Instr::JneClause(n)) == "  jne _clause2_"@ + int_text(n as int) + "\n"@,
        instr_text(Instr::JmpEnd(n)) == "  jmp _end_"@ + int_text(n as int) + "\n"@,
        instr_text(Instr::ClauseLabel(n)) == "  _clause2_"@ + int_text(n as int) + ":\n"@,
        instr_text(Instr::EndLabel(n)) == "  _end_"@ + int_text(n as int) + ":\n"@,
        instr_text(Instr::Store(n)) == "  movl %eax, "@ + int_text(n as int) + "(%rbp)\n"@,
        instr_text(Instr::Load(n)) == "  movl "@ + int_text(n as int) + "(%rbp), %eax\n"@,
{
}

/// The assembly text of a sequence of instructions, one line each.
pub open spec fn render(code: Seq<Instr>) -> Seq<char>
    decreases code.len(),
{
    if code.len() == 0 {
        Seq::empty()
    } else {
        render(code.drop_last()) + instr_text(code.last())
    }
}

pub proof fn lemma_render_append(a: Seq<Instr>, b: Seq<Instr>)
    ensures
        render(a + b) == render(a) + render(b),
    decreases b.len(),
{
    if b.len() == 0 {
        assert(a + b =~= a);
        assert(render(b) =~= Seq::<char>::empty());
        assert(render(a) + render(b) =~= render(a));
    } else {
        lemma_render_append(a, b.drop_last());
        assert((a + b).drop_last() =~= a + b.drop_last());
        assert((a + b).last() == b.last());
        assert(render(a + b) =~= render(a) + render(b.drop_last()) + instr_text(b.last()));
    }
}

/// Appends the text of one instruction.
fn emit(out: &mut String, i: Instr)
    ensures
        final(out)@ == old(out)@ + instr_text(i),
{
    match i {
        Instr::MovImm(v) => {
            out.append("  movl $");
            append_i32(out, v);
            out.append(", %eax\n");
        },
        Instr::Neg => out.append("  negl %eax\n"),
        Instr::Not => out.append("  notl %eax\n"),
        Instr::CmpZeroEax => out.append("  cmpl $0, %eax\n"),
        Instr::CmpZeroEcx => out.append("  cmpl $0, %ecx\n"),
        Instr::CmpEaxEcx => out.append("  cmpl %eax, %ecx\n"),
        Instr::SetE => out.append("  sete %al\n"),
        Instr::SetNe => out.append("  setne %al\n"),
        Instr::SetL => out.append("  setl %al\n"),
        Instr::SetLe => out.append("  setle %al\n"),
        Instr::SetG => out.append("  setg %al\n"),
        Instr::SetGe => out.append("  setge %al\n"),
        Instr::PushRax => out.append("  push %rax\n"),
        Instr::PushRcx => out.append("  push %rcx\n"),
        Instr::PopRax => out.append("  pop %rax\n"),
        Instr::PopRcx => out.append("  pop %rcx\n"),
        Instr::MovEaxEcx => out.append("  movl %eax, %ecx\n"),
        Instr::MovEcxEax => out.append("  movl %ecx, %eax\n"),
        Instr::AddEcxEax => out.append("  addl %ecx, %eax\n"),
        Instr::SubEaxEcx => out.append("  subl %eax, %ecx\n"),
        Instr::ImulEcxEax => out.append("  imull %ecx, %eax\n"),
        Instr::Cdq => out.append("  cdq\n"),
        Instr::IdivEcx => out.append("  idivl %ecx\n"),
        Instr::JeClause(n) => {
            out.append("  je _clause2_");
            append_i32(out, n);
            out.append("\n");
        },
        Instr::JneClause(n) => {
            out.append("  jne _clause2_");
            append_i32(out, n);
            out.append("\n");
        },
        Instr::JmpEnd(n) => {
            out.append("  jmp _end_");
            append_i32(out, n);
            out.append("\n");
        },
        Instr::ClauseLabel(n) => {
            out.append("  _clause2_");
            append_i32(out, n);
            out.append(":\n");
        },
        Instr::EndLabel(n) => {
            out.append("  _end_");
            append_i32(out, n);
            out.append(":\n");
        },
        Instr::Store(off) => {
            out.append("  movl %eax, ");
            append_i32(out, off);
            out.append("(%rbp)\n");
        },
        Instr::Load(off) => {
            out.append("  movl ");
            append_i32(out, off);
            out.append("(%rbp), %eax\n");
        },
    }
}

/// Appends the text of a sequence of instructions.
fn emit_all(out: &mut String, code: &Vec<Instr>)
    ensures
        final(out)@ == old(out)@ + render(code@),
{
    let ghost start = out@;
    let n = code.len();
    for i in 0..n
        invariant
            n == code@.len(),
            out@ == start + render(code@.take(i as int)),
    {
        emit(out, code[i]);
        assert(code@.take(i + 1).drop_last() =~= code@.take(i as int));
    }
    assert(code@.take(n as int) =~= code@);
}


// ---------------------------------------------------------------------------------------------
// Code of expressions and statements
// ---------------------------------------------------------------------------------------------

/// Why a program cannot be compiled.
#[derive(Debug)]
pub enum GenError {
    /// A variable is declared twice in one function.
    Redeclared(String),
    /// A variable is read or assigned before its declaration.
    Undeclared(String),
    /// The jump counter would pass `i32::MAX`.
    JumpCounterOverflow,
    /// The stack index would pass `i32::MIN`.
    StackIndexOverflow,
}

/// The message of a code generation error.
pub open spec fn gen_error_text(e: GenError) -> Seq<char> {
    match e {
        GenError::Redeclared(v) => "Variable '"@ + v@ + "' has already been declared"@,
        GenError::Undeclared(v) => "Assigning variable '"@ + v@ + "' which has not been declared yet"@,
        GenError::JumpCounterOverflow => "attempt to add with overflow"@,
        GenError::StackIndexOverflow => "attempt to subtract with overflow"@,
    }
}

impl GenError {
    /// The message of the error.
    pub fn message(&self) -> (s: String)
        ensures
            s@ == gen_error_text(*self),
    {
        let mut s = String::new();
        match self {
            GenError::Redeclared(v) => {
                s.append("Variable '");
                s.append(v.as_str());
                s.append("' has already been declared");
            },
            GenError::Undeclared(v) => {
                s.append("Assigning variable '");
                s.append(v.as_str());
                s.append("' which has not been declared yet");
            },
            GenError::JumpCounterOverflow => s.append("attempt to add with overflow"),
            GenError::StackIndexOverflow => s.append("attempt to subtract with overflow"),
        }
        s
    }
}

/// The stack offset (from `%rbp`) of the first declaration of `name` in `vars`.
pub open spec fn lookup(vars: Seq<(Seq<char>, i32)>, name: Seq<char>) -> Option<i32>
    decreases vars.len(),
{
    if vars.len() == 0 {
        None
    } else if vars[0].0 == name {
        Some(vars[0].1)
    } else {
        lookup(vars.drop_first(), name)
    }
}

/// Variables are found by their exact name: `lookup` gives the offset of the first entry whose
/// name equals `name`, and nothing when no entry has that name.
pub proof fn lemma_lookup_by_name(vars: Seq<(Seq<char>, i32)>, name: Seq<char>)
    ensures
        lookup(vars, name) is None <==> forall|k: int| 0 <= k < vars.len() ==> (#[trigger] vars[k]).0 != name,
        lookup(vars, name) matches Some(off) ==> exists|k: int|
            0 <= k < vars.len() && (#[trigger] vars[k]).0 == name && vars[k].1 == off && forall|q: int|
                0 <= q < k ==> (#[trigger] vars[q]).0 != name,
    decreases vars.len(),
{
    if vars.len() > 0 {
        let rest = vars.drop_first();
        lemma_lookup_by_name(rest, name);
        assert forall|k: int| 0 < k < vars.len() implies vars[k] == rest[k - 1] by {}
        if vars[0].0 == name {
            assert(vars[0].0 == name && vars[0].1 == lookup(vars, name)->Some_0);
        } else {
            if lookup(vars, name) is None {
                assert forall|k: int| 0 <= k < vars.len() implies (#[trigger] vars[k]).0 != name by {
                    if k > 0 {
                        assert(vars[k] == rest[k - 1]);
                    }
                }
            } else {
                let off = lookup(vars, name)->Some_0;
                let k = choose|k: int|
                    0 <= k < rest.len() && (#[trigger] rest[k]).0 == name && rest[k].1 == off
                        && forall|q: int| 0 <= q < k ==> (#[trigger] rest[q]).0 != name;
                assert(vars[k + 1] == rest[k]);
                assert forall|q: int| 0 <= q < k + 1 implies (#[trigger] vars[q]).0 != name by {
                    if q > 0 {
                        assert(vars[q] == rest[q - 1]);
                    }
                }
            }
            if forall|k: int| 0 <= k < vars.len() ==> (#[trigger] vars[k]).0 != name {
                assert forall|k: int| 0 <= k < rest.len() implies (#[trigger] rest[k]).0 != name by {
                    assert(rest[k] == vars[k + 1]);
                }
            }
        }
    }
}

/// With names that are all different, each variable is found at its own offset.
pub proof fn lemma_lookup_distinct_names(vars: Seq<(Seq<char>, i32)>, k: int)
    requires
        0 <= k < vars.len(),
        forall|i: int, j: int| 0 <= i < j < vars.len() ==> (#[trigger] vars[i]).0 != (#[trigger] vars[j]).0,
    ensures
        lookup(vars, vars[k].0) == Some(vars[k].1),
{
    lemma_lookup_by_name(vars, vars[k].0);
    assert(lookup(vars, vars[k].0) is Some);
    let off = lookup(vars, vars[k].0)->Some_0;
    let k2 = choose|k2: int|
        0 <= k2 < vars.len() && (#[trigger] vars[k2]).0 == vars[k].0 && vars[k2].1 == off && forall|q: int|
            0 <= q < k2 ==> (#[trigger] vars[q]).0 != vars[k].0;
    if k2 < k {
        assert(vars[k2].0 != vars[k].0);
    } else if k < k2 {
        assert(vars[k].0 != vars[k2].0);
    }
}

/// A declaration is refused as a redeclaration exactly when a variable of the same name is
/// already declared in the function.
pub proof fn lemma_redeclared_iff_same_name(var: String, init: Option<Expression>, st: GenState)
    ensures
        item_code(BlockItem::Decl(var, init), st) == Err::<(Seq<Instr>, GenState), GenError>(
            GenError::Redeclared(var),
        ) <== exists|k: int| 0 <= k < st.vars.len() && (#[trigger] st.vars[k]).0 == var@,
        (forall|k: int| 0 <= k < st.vars.len() ==> (#[trigger] st.vars[k]).0 != var@) ==> !(item_code(
            BlockItem::Decl(var, init),
            st,
        ) matches Err(GenError::Redeclared(_))),
{
    lemma_lookup_by_name(st.vars, var@);
    match init {
        Some(x) => {
            if forall|k: int| 0 <= k < st.vars.len() ==> (#[trigger] st.vars[k]).0 != var@ {
                lemma_expr_code_never_redeclares(x, st.jc, st.vars);
            }
        },
        None => {},
    }
}

/// The code of an expression never reports a redeclaration: only declarations do.
pub proof fn lemma_expr_code_never_redeclares(e: Expression, jc: i32, vars: Seq<(Seq<char>, i32)>)
    ensures
        !(expr_code(e, jc, vars) matches Err(GenError::Redeclared(_))),
    decreases e,
{
    match e {
        Expression::UnOp(_, x) => lemma_expr_code_never_redeclares(*x, jc, vars),
        Expression::Assign(_, x) => lemma_expr_code_never_redeclares(*x, jc, vars),
        Expression::BinOp(_, a, b) => {
            lemma_expr_code_never_redeclares(*a, jc, vars);
            if expr_code(*a, jc, vars) is Ok {
                lemma_expr_code_never_redeclares(*b, expr_code(*a, jc, vars)->Ok_0.1, vars);
            }
        },
        Expression::LogOp(_, a, b) => {
            lemma_expr_code_never_redeclares(*a, jc, vars);
            if expr_code(*a, jc, vars) is Ok && expr_code(*a, jc, vars)->Ok_0.1 != i32::MAX {
                lemma_expr_code_never_redeclares(
                    *b,
                    (expr_code(*a, jc, vars)->Ok_0.1 + 1) as i32,
                    vars,
                );
            }
        },
        _ => {},
    }
}

/// The names and offsets of a variable list.
pub open spec fn vars_view(v: Seq<(String, i32)>) -> Seq<(Seq<char>, i32)> {
    v.map_values(|p: (String, i32)| (p.0@, p.1))
}

/// The code that applies a unary operator to `%eax`.
pub open spec fn unop_code(op: UnaryOp) -> Seq<Instr> {
    match op {
        UnaryOp::Negate => seq![Instr::Neg],
        UnaryOp::BitwiseNot => seq![Instr::Not],
        UnaryOp::LogicalNot => seq![Instr::CmpZeroEax, Instr::MovImm(0), Instr::SetE],
    }
}

/// The code that applies a binary operator to `%ecx` (first operand) and `%eax` (second),
/// leaving the result in `%eax`.
pub open spec fn binop_code(op: BinaryOp) -> Seq<Instr> {
    match op {
        BinaryOp::Add => seq![Instr::AddEcxEax],
        BinaryOp::Subtract => seq![Instr::SubEaxEcx, Instr::MovEcxEax],
        BinaryOp::Multiply => seq![Instr::ImulEcxEax],
        BinaryOp::Divide => seq![
            Instr::PushRcx,
            Instr::MovEaxEcx,
            Instr::PopRax,
            Instr::Cdq,
            Instr::IdivEcx,
        ],
        BinaryOp::Equal => seq![Instr::CmpEaxEcx, Instr::MovImm(0), Instr::SetE],
        BinaryOp::Unequal => seq![Instr::CmpEaxEcx, Instr::MovImm(0), Instr::SetNe],
        BinaryOp::Less => seq![Instr::CmpEaxEcx, Instr::MovImm(0), Instr::SetL],
        BinaryOp::LessEqual => seq![Instr::CmpEaxEcx, Instr::MovImm(0), Instr::SetLe],
        BinaryOp::Greater => seq![Instr::CmpEaxEcx, Instr::MovImm(0), Instr::SetG],
        BinaryOp::GreaterEqual => seq![Instr::CmpEaxEcx, Instr::MovImm(0), Instr::SetGe],
    }
}

/// The code between the two operands of the logical operation numbered `n`: it tests the first
/// operand and, where that settles the result, sets it and jumps to the end.
pub open spec fn logop_head(op: LogicalOp, n: i32) -> Seq<Instr> {
    match op {
        LogicalOp::Or => seq![
            Instr::PushRax,
            Instr::PopRcx,
            Instr::CmpZeroEcx,
            Instr::JeClause(n),
            Instr::MovImm(1),
            Instr::JmpEnd(n),
            Instr::ClauseLabel(n),
        ],
        LogicalOp::And => seq![
            Instr::PushRax,
            Instr::PopRcx,
            Instr::CmpZeroEcx,
            Instr::JneClause(n),
            Instr::MovImm(0),
            Instr::JmpEnd(n),
            Instr::ClauseLabel(n),
        ],
    }
}

/// The code after the second operand of the logical operation numbered `n`.
pub open spec fn logop_tail(n: i32) -> Seq<Instr> {
    seq![Instr::CmpZeroEax, Instr::MovImm(0), Instr::SetNe, Instr::EndLabel(n)]
}

/// The code of an expression, which leaves its value in `%eax`, with jump counter `jc` and the
/// declared variables `vars`: the instructions and the next jump counter.
pub open spec fn expr_code(e: Expression, jc: i32, vars: Seq<(Seq<char>, i32)>) -> Result<
    (Seq<Instr>, i32),
    GenError,
>
    decreases e,
{
    match e {
        Expression::LiteralInt(v) => Ok((seq![Instr::MovImm(v)], jc)),
        Expression::UnOp(op, x) => match expr_code(*x, jc, vars) {
            Ok((c, j)) => Ok((c + unop_code(op), j)),
            Err(err) => Err(err),
        },
        Expression::BinOp(op, a, b) => match expr_code(*a, jc, vars) {
            Ok((ca, j1)) => match expr_code(*b, j1, vars) {
                Ok((cb, j2)) => Ok(
                    (ca + seq![Instr::PushRax] + cb + seq![Instr::PopRcx] + binop_code(op), j2),
                ),
                Err(err) => Err(err),
            },
            Err(err) => Err(err),
        },
        Expression::LogOp(op, a, b) => match expr_code(*a, jc, vars) {
            Ok((ca, j1)) => if j1 == i32::MAX {
                Err(GenError::JumpCounterOverflow)
            } else {
                match expr_code(*b, (j1 + 1) as i32, vars) {
                    Ok((cb, j2)) => Ok((ca + logop_head(op, j1) + cb + logop_tail(j1), j2)),
                    Err(err) => Err(err),
                }
            },
            Err(err) => Err(err),
        },
        Expression::Assign(name, x) => match expr_code(*x, jc, vars) {
            Ok((c, j)) => match lookup(vars, name@) {
                Some(off) => Ok((c + seq![Instr::Store(off)], j)),
                None => Err(GenError::Undeclared(name)),
            },
            Err(err) => Err(err),
        },
        Expression::Var(name) => match lookup(vars, name@) {
            Some(off) => Ok((seq![Instr::Load(off)], jc)),
            None => Err(GenError::Undeclared(name)),
        },
    }
}

/// The state of code generation within a function: the jump counter, the declared variables
/// with their offsets, and the stack index of the next declaration.
pub struct GenState {
    pub jc: i32,
    pub vars: Seq<(Seq<char>, i32)>,
    pub si: i32,
}

/// The code of a block item, and the state after it. A return statement is compiled as its
/// expression; a conditional statement gives no code.
pub open spec fn item_code(item: BlockItem, st: GenState) -> Result<(Seq<Instr>, GenState), GenError> {
    match item {
        BlockItem::Stmt(Statement::Ret(x)) => match expr_code(x, st.jc, st.vars) {
            Ok((c, j)) => Ok((c, GenState { jc: j, ..st })),
            Err(err) => Err(err),
        },
        BlockItem::Stmt(Statement::Expr(x)) => match expr_code(x, st.jc, st.vars) {
            Ok((c, j)) => Ok((c, GenState { jc: j, ..st })),
            Err(err) => Err(err),
        },
        BlockItem::Stmt(Statement::Cond(_, _, _)) => Ok((Seq::empty(), st)),
        BlockItem::Decl(var, init) => if lookup(st.vars, var@) is Some {
            Err(GenError::Redeclared(var))
        } else {
            let init_code: Result<(Seq<Instr>, i32), GenError> = match init {
                Some(x) => match expr_code(x, st.jc, st.vars) {
                    Ok((c, j)) => Ok((c + seq![Instr::PushRax], j)),
                    Err(err) => Err(err),
                },
                None => Ok((seq![Instr::MovImm(0), Instr::PushRax], st.jc)),
            };
            match init_code {
                Ok((c, j)) => if st.si < i32::MIN + 8 {
                    Err(GenError::StackIndexOverflow)
                } else {
                    Ok(
                        (
                            c,
                            GenState {
                                jc: j,
                                vars: st.vars.push((var@, st.si)),
                                si: (st.si - 8) as i32,
                            },
                        ),
                    )
                },
                Err(err) => Err(err),
            }
        },
    }
}

/// The code of a list of block items, one after the other, and the state after them.
pub open spec fn items_code(items: Seq<BlockItem>, st: GenState) -> Result<
    (Seq<Instr>, GenState),
    GenError,
>
    decreases items.len(),
{
    if items.len() == 0 {
        Ok((Seq::empty(), st))
    } else {
        match item_code(items[0], st) {
            Ok((c, st1)) => match items_code(items.drop_first(), st1) {
                Ok((rest, st2)) => Ok((c + rest, st2)),
                Err(err) => Err(err),
            },
            Err(err) => Err(err),
        }
    }
}


/// A function body holds a return statement among its block items.
pub open spec fn has_return(items: Seq<BlockItem>) -> bool {
    exists|i: int| 0 <= i < items.len() && #[trigger] items[i] matches BlockItem::Stmt(
        Statement::Ret(_),
    )
}

/// The assembly text of a function: label, prologue, body, `return 0` where the body holds no
/// return statement, epilogue; its variables start afresh and its first declaration goes at
/// stack index `si`. Also the jump counter and stack index after it.
pub open spec fn function_asm(f: Function, jc: i32, si: i32) -> Result<(Seq<char>, i32, i32), GenError> {
    match items_code(f.child_block_items@, GenState { jc: jc, vars: Seq::empty(), si: si }) {
        Ok((c, st)) => Ok(
            (
                ".globl "@ + f.name@ + "\n"@ + f.name@ + ":\n"@ + "  push %rbp\n  mov %rsp, %rbp\n"@
                    + render(c) + (if has_return(f.child_block_items@) {
                    Seq::empty()
                } else {
                    "  movl $0, %eax\n"@
                }) + "  mov %rbp, %rsp\n  pop %rbp\n  ret\n"@,
                st.jc,
                st.si,
            ),
        ),
        Err(err) => Err(err),
    }
}

/// The assembly text of the functions, one after the other, with the counters threaded
/// through them.
pub open spec fn functions_asm(fs: Seq<Function>, jc: i32, si: i32) -> Result<
    (Seq<char>, i32, i32),
    GenError,
>
    decreases fs.len(),
{
    if fs.len() == 0 {
        Ok((Seq::empty(), jc, si))
    } else {
        match function_asm(fs[0], jc, si) {
            Ok((t, j1, s1)) => match functions_asm(fs.drop_first(), j1, s1) {
                Ok((rest, j2, s2)) => Ok((t + rest, j2, s2)),
                Err(err) => Err(err),
            },
            Err(err) => Err(err),
        }
    }
}

/// The note that ends the assembly text, so that the linker asks for no executable stack.
pub open spec fn stack_note() -> Seq<char> {
    ".section .note.GNU-stack,\"\",@progbits\n"@
}

/// The offset of the first declaration of `name` in the variable list.
fn lookup_var(var_map: &Vec<(String, i32)>, name: &String) -> (r: Option<i32>)
    ensures
        r == lookup(vars_view(var_map@), name@),
{
    let ghost vv = vars_view(var_map@);
    let n = var_map.len();
    assert(vv.skip(0) =~= vv);
    for i in 0..n
        invariant
            n == var_map@.len(),
            vv == vars_view(var_map@),
            lookup(vv, name@) == lookup(vv.skip(i as int), name@),
    {
        assert(vv.skip(i as int)[0] == vv[i as int]);
        assert(vv.skip(i as int).drop_first() =~= vv.skip(i + 1));
        if var_map[i].0 == *name {
            return Some(var_map[i].1);
        }
    }
    assert(vv.skip(n as int) =~= Seq::<(Seq<char>, i32)>::empty());
    None
}

/// The code state before a block item, seen from the generator's values.
pub open spec fn state_of(jc: i32, var_map: Seq<(String, i32)>, si: i32) -> GenState {
    GenState { jc: jc, vars: vars_view(var_map), si: si }
}

/// A code result with `pre` put in front of its instructions.
pub open spec fn code_after(pre: Seq<Instr>, r: Result<(Seq<Instr>, GenState), GenError>) -> Result<
    (Seq<Instr>, GenState),
    GenError,
> {
    match r {
        Ok((c, st)) => Ok((pre + c, st)),
        Err(err) => Err(err),
    }
}

proof fn lemma_items_code_step(items: Seq<BlockItem>, i: int, st: GenState)
    requires
        0 <= i < items.len(),
    ensures
        items_code(items.skip(i), st) == (match item_code(items[i], st) {
            Ok((c, st1)) => code_after(c, items_code(items.skip(i + 1), st1)),
            Err(err) => Err(err),
        }),
{
    assert(items.skip(i)[0] == items[i]);
    assert(items.skip(i).drop_first() =~= items.skip(i + 1));
}

proof fn lemma_functions_asm_step(fs: Seq<Function>, i: int, jc: i32, si: i32)
    requires
        0 <= i < fs.len(),
    ensures
        functions_asm(fs.skip(i), jc, si) == (match function_asm(fs[i], jc, si) {
            Ok((t, j1, s1)) => match functions_asm(fs.skip(i + 1), j1, s1) {
                Ok((rest, j2, s2)) => Ok((t + rest, j2, s2)),
                Err(err) => Err(err),
            },
            Err(err) => Err(err),
        }),
{
    assert(fs.skip(i)[0] == fs[i]);
    assert(fs.skip(i).drop_first() =~= fs.skip(i + 1));
}


// ---------------------------------------------------------------------------------------------
// Telling whether a program compiles
// ---------------------------------------------------------------------------------------------

/// Whether generating the functions succeeds, and if not, its error.
pub open spec fn gen_outcome(r: Result<(Seq<char>, i32, i32), GenError>) -> Result<(), GenError> {
    match r {
        Ok(_) => Ok(()),
        Err(err) => Err(err),
    }
}

/// The jump counter and stack index after a code result, or its error.
pub open spec fn counters_after(r: Result<(Seq<Instr>, GenState), GenError>) -> Result<(i32, i32), GenError> {
    match r {
        Ok((_, st)) => Ok((st.jc, st.si)),
        Err(err) => Err(err),
    }
}

/// The jump counter after the code of `expr`, or the error that generating it gives.
fn check_expression(expr: &Expression, jc: i32, var_map: &Vec<(String, i32)>) -> (r: Result<i32, GenError>)
    ensures
        (match expr_code(*expr, jc, vars_view(var_map@)) {
            Ok((_, j)) => r == Ok::<i32, GenError>(j),
            Err(err) => r == Err::<i32, GenError>(err),
        }),
    decreases expr,
{
    match expr {
        Expression::LiteralInt(_) => Ok(jc),
        Expression::UnOp(_, x) => check_expression(x, jc, var_map),
        Expression::BinOp(_, a, b) => match check_expression(a, jc, var_map) {
            Ok(j1) => check_expression(b, j1, var_map),
            Err(e) => Err(e),
        },
        Expression::LogOp(_, a, b) => match check_expression(a, jc, var_map) {
            Ok(j1) => if j1 == i32::MAX {
                Err(GenError::JumpCounterOverflow)
            } else {
                check_expression(b, j1 + 1, var_map)
            },
            Err(e) => Err(e),
        },
        Expression::Assign(name, x) => match check_expression(x, jc, var_map) {
            Ok(j) => match lookup_var(var_map, name) {
                Some(_) => Ok(j),
                None => Err(GenError::Undeclared(name.clone())),
            },
            Err(e) => Err(e),
        },
        Expression::Var(name) => match lookup_var(var_map, name) {
            Some(_) => Ok(jc),
            None => Err(GenError::Undeclared(name.clone())),
        },
    }
}

/// The jump counter and stack index after the body of `fun`, generated with fresh variables
/// from `jc` and `si`, or the error that generating it gives.
#[verifier::spinoff_prover]
fn check_body(fun: &Function, jc: i32, si: i32) -> (r: Result<(i32, i32), GenError>)
    ensures
        r == counters_after(
            items_code(fun.child_block_items@, GenState { jc: jc, vars: Seq::empty(), si: si }),
        ),
{
    let mut var_map: Vec<(String, i32)> = Vec::new();
    let mut jump_counter = jc;
    let mut stack_index = si;
    let ghost items = fun.child_block_items@;
    let ghost st0 = GenState { jc: jc, vars: Seq::empty(), si: si };
    let n = fun.child_block_items.len();
    assert(items.skip(0) =~= items);
    assert(vars_view(var_map@) =~= Seq::<(Seq<char>, i32)>::empty());
    for i in 0..n
        invariant
            n == items.len(),
            items == fun.child_block_items@,
            st0 == (GenState { jc: jc, vars: Seq::empty(), si: si }),
            counters_after(items_code(items, st0)) == counters_after(
                items_code(items.skip(i as int), state_of(jump_counter, var_map@, stack_index)),
            ),
    {
        let ghost st = state_of(jump_counter, var_map@, stack_index);
        proof {
            lemma_items_code_step(items, i as int, st);
        }
        match &fun.child_block_items[i] {
            BlockItem::Stmt(Statement::Ret(x)) => match check_expression(x, jump_counter, &var_map) {
                Ok(j) => jump_counter = j,
                Err(e) => return Err(e),
            },
            BlockItem::Stmt(Statement::Expr(x)) => match check_expression(x, jump_counter, &var_map) {
                Ok(j) => jump_counter = j,
                Err(e) => return Err(e),
            },
            BlockItem::Decl(var, x) => {
                if lookup_var(&var_map, var).is_some() {
                    return Err(GenError::Redeclared(var.clone()));
                }
                match x {
                    Some(e) => match check_expression(e, jump_counter, &var_map) {
                        Ok(j) => jump_counter = j,
                        Err(e) => return Err(e),
                    },
                    None => {},
                }
                if stack_index < i32::MIN + 8 {
                    return Err(GenError::StackIndexOverflow);
                }
                var_map.push((var.clone(), stack_index));
                stack_index = stack_index - 8;
                assert(vars_view(var_map@) =~= st.vars.push((var@, st.si)));
            },
            BlockItem::Stmt(Statement::Cond(_x, _a, _b)) => {},
        }
        proof {
            let (c, st1) = item_code(items[i as int], st)->Ok_0;
            assert(st1 == state_of(jump_counter, var_map@, stack_index));
        }
    }
    assert(items.skip(n as int) =~= Seq::<BlockItem>::empty());
    Ok((jump_counter, stack_index))
}

// ---------------------------------------------------------------------------------------------
// The generator
// ---------------------------------------------------------------------------------------------

/// Whether a function body holds a return statement.
fn holds_return(items: &Vec<BlockItem>) -> (b: bool)
    ensures
        b == has_return(items@),
{
    let m = items.len();
    for k in 0..m
        invariant
            m == items@.len(),
            forall|q: int| 0 <= q < k ==> !(#[trigger] items@[q] matches BlockItem::Stmt(Statement::Ret(_))),
    {
        if matches!(items[k], BlockItem::Stmt(Statement::Ret(_))) {
            return true;
        }
    }
    false
}

/// Converts a syntax tree into x86-64 assembly text.
pub struct Generator {
    pub ast: Program,
    /// The number of the next logical operation, which names its labels.
    pub jump_counter: i32,
    /// The stack offset (from `%rbp`) of the next variable declaration.
    pub stack_index: i32,
}

impl Generator {
    /// The assembly text of the program: each function in turn, then a note that the stack
    /// need not be executable. The jump counter runs on through the program, and so does the
    /// stack index: each declaration takes the current index and lowers it by 8 bytes.
    /// The program must compile: `check_program` tells whether it does.
    #[verifier::spinoff_prover]
    #[verifier::rlimit(40)]
    pub fn generate_program(&mut self) -> (out: String)
        requires
            functions_asm(old(self).ast.child_functions@, old(self).jump_counter, old(self).stack_index) is Ok,
        ensures
            final(self).ast == old(self).ast,
            ({
                let (text, j, s) = functions_asm(
                    old(self).ast.child_functions@,
                    old(self).jump_counter,
                    old(self).stack_index,
                )->Ok_0;
                &&& out@ == text + stack_note()
                &&& final(self).jump_counter == j
                &&& final(self).stack_index == s
            }),
    {
        let ghost fs = self.ast.child_functions@;
        let ghost j0 = self.jump_counter;
        let ghost s0 = self.stack_index;
        let mut assembly = String::new();
        let mut jump_counter = self.jump_counter;
        let mut stack_index = self.stack_index;
        let n = self.ast.child_functions.len();
        assert(fs.skip(0) =~= fs);
        for i in 0..n
            invariant
                n == fs.len(),
                fs == self.ast.child_functions@,
                fs == old(self).ast.child_functions@,
                j0 == old(self).jump_counter,
                s0 == old(self).stack_index,
                self.ast == old(self).ast,
                functions_asm(fs, j0, s0) is Ok,
                functions_asm(fs, j0, s0) == (match functions_asm(fs.skip(i as int), jump_counter, stack_index) {
                    Ok((rest, j, s)) => Ok((assembly@ + rest, j, s)),
                    Err(err) => Err(err),
                }),
        {
            let fun = &self.ast.child_functions[i];
            proof {
                lemma_functions_asm_step(fs, i as int, jump_counter, stack_index);
                assert(functions_asm(fs.skip(i as int), jump_counter, stack_index) is Ok);
                assert(function_asm(*fun, jump_counter, stack_index) is Ok);
            }
            let ghost before = assembly@;
            let ghost jb = jump_counter;
            let ghost sb = stack_index;
            assembly.append(".globl ");
            assembly.append(fun.name.as_str());
            assembly.append("\n");
            assembly.append(fun.name.as_str());
            assembly.append(":\n");
            assembly.append("  push %rbp\n  mov %rsp, %rbp\n");
            let mut code: Vec<Instr> = Vec::new();
            Self::generate_statement(fun, &mut jump_counter, &mut stack_index, &mut code);
            assert(Seq::<Instr>::empty() + code@ =~= code@);
            emit_all(&mut assembly, &code);
            // If a function has no return statement, return 0
            if !holds_return(&fun.child_block_items) {
                assembly.append("  movl $0, %eax\n");
            }
            assembly.append("  mov %rbp, %rsp\n  pop %rbp\n  ret\n");
            proof {
                let ft = function_asm(*fun, jb, sb);
                assert(ft is Ok);
                let (t, j1, s1) = ft->Ok_0;
                assert(assembly@ =~= before + t);
                match functions_asm(fs.skip(i + 1), jump_counter, stack_index) {
                    Ok((rest, j, s)) => {
                        assert(before + (t + rest) =~= assembly@ + rest);
                    },
                    Err(_) => {},
                }
            }
        }
        assert(fs.skip(n as int) =~= Seq::<Function>::empty());
        assert(assembly@ + Seq::<char>::empty() =~= assembly@);
        assembly.append(".section .note.GNU-stack,\"\",@progbits\n");
        self.jump_counter = jump_counter;
        self.stack_index = stack_index;
        assembly
    }

    /// Whether the program compiles from the generator's counters, and if not, the error that
    /// generating it gives.
    pub fn check_program(&self) -> (r: Result<(), GenError>)
        ensures
            r == gen_outcome(functions_asm(self.ast.child_functions@, self.jump_counter, self.stack_index)),
    {
        let ghost fs = self.ast.child_functions@;
        let mut jump_counter = self.jump_counter;
        let mut stack_index = self.stack_index;
        let n = self.ast.child_functions.len();
        assert(fs.skip(0) =~= fs);
        for i in 0..n
            invariant
                n == fs.len(),
                fs == self.ast.child_functions@,
                gen_outcome(functions_asm(fs, self.jump_counter, self.stack_index)) == gen_outcome(
                    functions_asm(fs.skip(i as int), jump_counter, stack_index),
                ),
        {
            proof {
                lemma_functions_asm_step(fs, i as int, jump_counter, stack_index);
            }
            match check_body(&self.ast.child_functions[i], jump_counter, stack_index) {
                Ok((j, s)) => {
                    jump_counter = j;
                    stack_index = s;
                },
                Err(e) => return Err(e),
            }
        }
        assert(fs.skip(n as int) =~= Seq::<Function>::empty());
        Ok(())
    }

    /// Appends the code of the block items of `fun` to `code`: each expression leaves its
    /// value in `%eax`, each declaration pushes its initial value (0 where there is none).
    #[verifier::spinoff_prover]
    fn generate_statement(
        fun: &Function,
        jump_counter: &mut i32,
        stack_index: &mut i32,
        code: &mut Vec<Instr>,
    )
        requires
            items_code(
                fun.child_block_items@,
                GenState { jc: *old(jump_counter), vars: Seq::empty(), si: *old(stack_index) },
            ) is Ok,
        ensures
            ({
                let (c, st) = items_code(
                    fun.child_block_items@,
                    GenState { jc: *old(jump_counter), vars: Seq::empty(), si: *old(stack_index) },
                )->Ok_0;
                &&& final(code)@ == old(code)@ + c
                &&& *final(jump_counter) == st.jc
                &&& *final(stack_index) == st.si
            }),
    {
        // Each function (scope) gets a blank variable map
        let mut var_map: Vec<(String, i32)> = Vec::new();
        let ghost items = fun.child_block_items@;
        let ghost st0 = state_of(*jump_counter, var_map@, *stack_index);
        let ghost c0 = code@;
        let n = fun.child_block_items.len();
        assert(items.skip(0) =~= items);
        assert(c0 + Seq::<Instr>::empty() =~= c0);
        assert(vars_view(var_map@) =~= Seq::<(Seq<char>, i32)>::empty());
        for i in 0..n
            invariant
                st0 == (GenState { jc: *old(jump_counter), vars: Seq::empty(), si: *old(stack_index) }),
                c0 == old(code)@,
                n == items.len(),
                items == fun.child_block_items@,
                c0.len() <= code@.len(),
                c0 == code@.subrange(0, c0.len() as int),
                items_code(items, st0) is Ok,
                items_code(items, st0) == code_after(
                    code@.subrange(c0.len() as int, code@.len() as int),
                    items_code(items.skip(i as int), state_of(*jump_counter, var_map@, *stack_index)),
                ),
        {
            let ghost st = state_of(*jump_counter, var_map@, *stack_index);
            let ghost cb = code@;
            proof {
                lemma_items_code_step(items, i as int, st);
            }
            match &fun.child_block_items[i] {
                BlockItem::Stmt(Statement::Ret(x)) => {
                    Self::generate_expression(x, jump_counter, &var_map, code);
                },
                BlockItem::Stmt(Statement::Expr(x)) => {
                    Self::generate_expression(x, jump_counter, &var_map, code);
                },
                BlockItem::Decl(var, x) => {
                    match x {
                        Some(e) => {
                            Self::generate_expression(e, jump_counter, &var_map, code);
                            code.push(Instr::PushRax);  // Push variable onto stack
                        },
                        None => {
                            code.push(Instr::MovImm(0));  // Init 'int a;' as a = 0
                            code.push(Instr::PushRax);
                        },
                    }
                    var_map.push((var.clone(), *stack_index));
                    *stack_index = *stack_index - 8;  // This will give each variable 8 bytes of space
                    assert(vars_view(var_map@) =~= st.vars.push((var@, st.si)));
                },
                BlockItem::Stmt(Statement::Cond(_x, _a, _b)) => {},
            }
            proof {
                let ic = item_code(items[i as int], st);
                assert(ic is Ok);
                let (c, st1) = ic->Ok_0;
                assert(code@ =~= cb + c);
                assert(st1 == state_of(*jump_counter, var_map@, *stack_index));
                assert(code@.subrange(0, c0.len() as int) =~= c0);
                assert(cb.subrange(c0.len() as int, cb.len() as int) + c =~= code@.subrange(
                    c0.len() as int,
                    code@.len() as int,
                ));
                match items_code(items.skip(i + 1), st1) {
                    Ok((rest, st2)) => {
                        assert(cb.subrange(c0.len() as int, cb.len() as int) + (c + rest)
                            =~= code@.subrange(c0.len() as int, code@.len() as int) + rest);
                    },
                    Err(_) => {},
                }
            }
        }
        assert(items.skip(n as int) =~= Seq::<BlockItem>::empty());
        assert(code@ =~= c0 + code@.subrange(c0.len() as int, code@.len() as int));
        assert(code@.subrange(c0.len() as int, code@.len() as int) + Seq::<Instr>::empty()
            =~= code@.subrange(c0.len() as int, code@.len() as int));
    }

    /// Appends the code of `expr` to `code`; the code leaves the value of the expression in
    /// `%eax`. Each logical operation takes the current jump counter for its labels and raises
    /// it before its operands' labels are numbered.
    #[verifier::spinoff_prover]
    #[verifier::rlimit(40)]
    fn generate_expression(
        expr: &Expression,
        jump_counter: &mut i32,
        var_map: &Vec<(String, i32)>,
        code: &mut Vec<Instr>,
    )
        requires
            expr_code(*expr, *old(jump_counter), vars_view(var_map@)) is Ok,
        ensures
            final(code)@ == old(code)@ + expr_code(*expr, *old(jump_counter), vars_view(var_map@))->Ok_0.0,
            *final(jump_counter) == expr_code(*expr, *old(jump_counter), vars_view(var_map@))->Ok_0.1,
        decreases expr,
    {
        let ghost c0 = code@;
        match expr {
            Expression::LiteralInt(val) => {
                code.push(Instr::MovImm(*val));
                assert(code@ =~= c0 + seq![Instr::MovImm(*val)]);
            },
            Expression::UnOp(op, operand) => {
                Self::generate_expression(operand, jump_counter, var_map, code);
                let ghost c1 = code@;
                match op {
                    UnaryOp::Negate => {
                        code.push(Instr::Neg);
                    },
                    UnaryOp::BitwiseNot => {
                        code.push(Instr::Not);
                    },
                    UnaryOp::LogicalNot => {
                        code.push(Instr::CmpZeroEax);  // if (%eax - 0) == 0 this sets the ZF flag to 1
                        code.push(Instr::MovImm(0));  // zero out %eax
                        code.push(Instr::SetE);  // sete sets %al to 1 if ZF is 1
                    },
                }
                assert(code@ =~= c1 + unop_code(*op));
            },
            Expression::BinOp(op, operand1, operand2) => {
                Self::generate_expression(operand1, jump_counter, var_map, code);
                code.push(Instr::PushRax);
                let ghost c1 = code@;
                Self::generate_expression(operand2, jump_counter, var_map, code);  // 2nd operand in eax
                code.push(Instr::PopRcx);  // 1st operand in ecx
                let ghost c2 = code@;
                match op {
                    BinaryOp::Add => {
                        code.push(Instr::AddEcxEax);
                    },
                    BinaryOp::Subtract => {
                        code.push(Instr::SubEaxEcx);
                        code.push(Instr::MovEcxEax);
                    },
                    BinaryOp::Multiply => {
                        code.push(Instr::ImulEcxEax);
                    },
                    BinaryOp::Divide => {
                        // Swap: 1st operand in eax, 2nd in ecx
                        code.push(Instr::PushRcx);
                        code.push(Instr::MovEaxEcx);
                        code.push(Instr::PopRax);
                        code.push(Instr::Cdq);  // sign-extends eax into edx:eax
                        code.push(Instr::IdivEcx);  // quotient in eax, remainder in edx
                    },
                    BinaryOp::Equal => {
                        code.push(Instr::CmpEaxEcx);
                        code.push(Instr::MovImm(0));
                        code.push(Instr::SetE);
                    },
                    BinaryOp::Unequal => {
                        code.push(Instr::CmpEaxEcx);
                        code.push(Instr::MovImm(0));
                        code.push(Instr::SetNe);
                    },
                    BinaryOp::Less => {
                        code.push(Instr::CmpEaxEcx);
                        code.push(Instr::MovImm(0));
                        code.push(Instr::SetL);
                    },
                    BinaryOp::LessEqual => {
                        code.push(Instr::CmpEaxEcx);
                        code.push(Instr::MovImm(0));
                        code.push(Instr::SetLe);
                    },
                    BinaryOp::Greater => {
                        code.push(Instr::CmpEaxEcx);
                        code.push(Instr::MovImm(0));
                        code.push(Instr::SetG);
                    },
                    BinaryOp::GreaterEqual => {
                        code.push(Instr::CmpEaxEcx);
                        code.push(Instr::MovImm(0));
                        code.push(Instr::SetGe);
                    },
                }
                assert(code@ =~= c2 + binop_code(*op));
                proof {
                    let (ca, j1) = expr_code(**operand1, *old(jump_counter), vars_view(var_map@))->Ok_0;
                    let (cb, j2) = expr_code(**operand2, j1, vars_view(var_map@))->Ok_0;
                    assert(c1 =~= c0 + ca + seq![Instr::PushRax]);
                    assert(c2 =~= c1 + cb + seq![Instr::PopRcx]);
                    assert(code@ =~= c0 + (ca + seq![Instr::PushRax] + cb + seq![Instr::PopRcx]
                        + binop_code(*op)));
                }
            },
            // A logical operation may skip its second operand, so it is kept apart from the
            // binary operations.
            Expression::LogOp(op, operand1, operand2) => {
                Self::generate_expression(operand1, jump_counter, var_map, code);
                // Claim the current number and increment it at once for any nested expressions
                let current_jump = *jump_counter;
                *jump_counter = current_jump + 1;
                let ghost c1 = code@;
                code.push(Instr::PushRax);
                code.push(Instr::PopRcx);  // 1st operand in ecx
                code.push(Instr::CmpZeroEcx);  // sets ZF if the 1st operand is zero
                match op {
                    LogicalOp::Or => {
                        code.push(Instr::JeClause(current_jump));  // if e1 was zero, check e2
                        code.push(Instr::MovImm(1));  // else e1 || e2 is 1 (short-circuit)
                    },
                    LogicalOp::And => {
                        code.push(Instr::JneClause(current_jump));  // if e1 was not zero, check e2
                        code.push(Instr::MovImm(0));  // else e1 && e2 is 0 (short-circuit)
                    },
                }
                code.push(Instr::JmpEnd(current_jump));
                code.push(Instr::ClauseLabel(current_jump));
                assert(code@ =~= c1 + logop_head(*op, current_jump));
                let ghost c2 = code@;
                Self::generate_expression(operand2, jump_counter, var_map, code);  // 2nd operand in eax
                let ghost c3 = code@;
                code.push(Instr::CmpZeroEax);  // is e2 zero?
                code.push(Instr::MovImm(0));
                code.push(Instr::SetNe);  // if it is not, the result is 1
                code.push(Instr::EndLabel(current_jump));
                assert(code@ =~= c3 + logop_tail(current_jump));
                proof {
                    let (ca, j1) = expr_code(**operand1, *old(jump_counter), vars_view(var_map@))->Ok_0;
                    let (cb, j2) = expr_code(**operand2, (j1 + 1) as i32, vars_view(var_map@))->Ok_0;
                    assert(c1 =~= c0 + ca);
                    assert(code@ =~= c0 + (ca + logop_head(*op, j1) + cb + logop_tail(j1)));
                }
            },
            Expression::Assign(var_name, operand) => {
                Self::generate_expression(operand, jump_counter, var_map, code);
                match lookup_var(var_map, var_name) {
                    Some(var_offset) => {
                        let ghost c1 = code@;
                        code.push(Instr::Store(var_offset));
                        assert(code@ =~= c1 + seq![Instr::Store(var_offset)]);
                    },
                    None => unreached(),
                }
            },
            Expression::Var(var_name) => {
                match lookup_var(var_map, var_name) {
                    Some(var_offset) => {
                        code.push(Instr::Load(var_offset));
                        assert(code@ =~= c0 + seq![Instr::Load(var_offset)]);
                    },
                    None => unreached(),
                }
            },
        }
    }
}

} // verus!
