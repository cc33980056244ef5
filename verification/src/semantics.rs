use vstd::prelude::*;
use crate::ast::{BinaryOp, BlockItem, Expression, Function, LogicalOp, Statement, UnaryOp};
use crate::generator::{
    GenState, Instr, binop_code, expr_code, function_asm, functions_asm, has_return, instr_text,
    item_code, items_code, lemma_lookup_by_name, lemma_lookup_distinct_names, lemma_render_append,
    logop_head, logop_tail, lookup, render, unop_code,
};
use crate::parser::{
    function_shape, lemma_program_returns_come_last, program_syntax, return_comes_last,
};
use crate::lexer::Token;
use crate::layout::{lemma_expr_code_labels, lemma_functions_asm_split, start_counters};
use crate::text::{digit_text, int_text, nat_text};

verus! {

// ---------------------------------------------------------------------------------------------
// The machine
// ---------------------------------------------------------------------------------------------

/// A jump target: the clause label or the end label of a logical operation.
pub enum Label {
    Clause(i32),
    End(i32),
}

/// The part of an x86-64 machine that the generated code uses. Registers hold their lower 32
/// bits; `flags` holds the two operands `(dst, src)` of the last `cmpl src, dst`; the stack is
/// addressed by offsets from `%rbp`, and each 8-byte slot holds the lower 32 bits of what was
/// stored in it. A forward jump in progress skips instructions until its label; a division
/// fault stops the machine.
pub struct Machine {
    pub eax: i32,
    pub ecx: i32,
    pub edx: i32,
    pub flags: (i32, i32),
    pub rsp: int,
    pub mem: spec_fn(int) -> i32,
    pub skip: Option<Label>,
    pub fault: bool,
}

/// An integer taken modulo 2^32 as a two's complement `i32`.
pub open spec fn wrap(x: int) -> i32 {
    ((x + 0x8000_0000) % 0x1_0000_0000 - 0x8000_0000) as i32
}

/// The value of a comparison as `0` or `1`.
pub open spec fn bool_i32(b: bool) -> i32 {
    if b {
        1
    } else {
        0
    }
}

/// `eax` with its lowest byte replaced by the truth value `b`, as `setcc %al` does.
pub open spec fn set_al(eax: i32, b: bool) -> i32 {
    let u: int = if eax < 0 {
        eax + 0x1_0000_0000
    } else {
        eax as int
    };
    let r: int = u - u % 256 + if b {
        1int
    } else {
        0int
    };
    (if r >= 0x8000_0000 {
        r - 0x1_0000_0000
    } else {
        r
    }) as i32
}

/// Division rounded toward zero, as `idivl` computes it.
pub open spec fn trunc_div(a: int, b: int) -> int {
    if a >= 0 && b > 0 {
        a / b
    } else if a < 0 && b > 0 {
        -((-a) / b)
    } else if a >= 0 && b < 0 {
        -(a / (-b))
    } else {
        (-a) / (-b)
    }
}

/// Remainder of the division rounded toward zero.
pub open spec fn trunc_rem(a: int, b: int) -> int {
    a - b * trunc_div(a, b)
}

/// The stack memory with the slot at `off` holding `v`.
pub open spec fn mem_update(m: spec_fn(int) -> i32, off: int, v: i32) -> spec_fn(int) -> i32 {
    |k: int|
        if k == off {
            v
        } else {
            m(k)
        }
}

/// The label that an instruction places, if it is a label.
pub open spec fn label_of(i: Instr) -> Option<Label> {
    match i {
        Instr::ClauseLabel(n) => Some(Label::Clause(n)),
        Instr::EndLabel(n) => Some(Label::End(n)),
        _ => None,
    }
}

/// What one instruction does on a running machine.
pub open spec fn exec_instr(i: Instr, s: Machine) -> Machine {
    match i {
        Instr::MovImm(v) => Machine { eax: v, ..s },
        Instr::Neg => Machine { eax: wrap(-s.eax), ..s },
        Instr::Not => Machine { eax: (-s.eax - 1) as i32, ..s },
        Instr::CmpZeroEax => Machine { flags: (s.eax, 0), ..s },
        Instr::CmpZeroEcx => Machine { flags: (s.ecx, 0), ..s },
        Instr::CmpEaxEcx => Machine { flags: (s.ecx, s.eax), ..s },
        Instr::SetE => Machine { eax: set_al(s.eax, s.flags.0 == s.flags.1), ..s },
        Instr::SetNe => Machine { eax: set_al(s.eax, s.flags.0 != s.flags.1), ..s },
        Instr::SetL => Machine { eax: set_al(s.eax, s.flags.0 < s.flags.1), ..s },
        Instr::SetLe => Machine { eax: set_al(s.eax, s.flags.0 <= s.flags.1), ..s },
        Instr::SetG => Machine { eax: set_al(s.eax, s.flags.0 > s.flags.1), ..s },
        Instr::SetGe => Machine { eax: set_al(s.eax, s.flags.0 >= s.flags.1), ..s },
        Instr::PushRax => Machine { rsp: s.rsp - 8, mem: mem_update(s.mem, s.rsp - 8, s.eax), ..s },
        Instr::PushRcx => Machine { rsp: s.rsp - 8, mem: mem_update(s.mem, s.rsp - 8, s.ecx), ..s },
        Instr::PopRax => Machine { eax: (s.mem)(s.rsp), rsp: s.rsp + 8, ..s },
        Instr::PopRcx => Machine { ecx: (s.mem)(s.rsp), rsp: s.rsp + 8, ..s },
        Instr::MovEaxEcx => Machine { ecx: s.eax, ..s },
        Instr::MovEcxEax => Machine { eax: s.ecx, ..s },
        Instr::AddEcxEax => Machine { eax: wrap(s.eax + s.ecx), ..s },
        Instr::SubEaxEcx => Machine { ecx: wrap(s.ecx - s.eax), ..s },
        Instr::ImulEcxEax => Machine { eax: wrap(s.ecx * s.eax), ..s },
        Instr::Cdq => Machine {
            edx: if s.eax < 0 {
                -1i32
            } else {
                0i32
            },
            ..s
        },
        Instr::IdivEcx => {
            let low: int = if s.eax < 0 {
                s.eax + 0x1_0000_0000
            } else {
                s.eax as int
            };
            let dividend: int = s.edx * 0x1_0000_0000 + low;
            let q = trunc_div(dividend, s.ecx as int);
            if s.ecx == 0 || q < i32::MIN || q > i32::MAX {
                Machine { fault: true, ..s }
            } else {
                Machine { eax: q as i32, edx: trunc_rem(dividend, s.ecx as int) as i32, ..s }
            }
        },
        Instr::JeClause(n) => if s.flags.0 == s.flags.1 {
            Machine { skip: Some(Label::Clause(n)), ..s }
        } else {
            s
        },
        Instr::JneClause(n) => if s.flags.0 != s.flags.1 {
            Machine { skip: Some(Label::Clause(n)), ..s }
        } else {
            s
        },
        Instr::JmpEnd(n) => Machine { skip: Some(Label::End(n)), ..s },
        Instr::ClauseLabel(_) => s,
        Instr::EndLabel(_) => s,
        Instr::Store(off) => Machine { mem: mem_update(s.mem, off as int, s.eax), ..s },
        Instr::Load(off) => Machine { eax: (s.mem)(off as int), ..s },
    }
}

/// One step of the machine: nothing after a fault; while a forward jump is in progress, only
/// its label counts, and ends the jump.
#[verifier::opaque]
pub open spec fn step(i: Instr, s: Machine) -> Machine {
    if s.fault {
        s
    } else {
        match s.skip {
            Some(l) => if label_of(i) == Some(l) {
                Machine { skip: None, ..s }
            } else {
                s
            },
            None => exec_instr(i, s),
        }
    }
}

/// Running a sequence of instructions.
pub open spec fn run(c: Seq<Instr>, s: Machine) -> Machine
    decreases c.len(),
{
    if c.len() == 0 {
        s
    } else {
        run(c.drop_first(), step(c[0], s))
    }
}

// ---------------------------------------------------------------------------------------------
// The meaning of expressions
// ---------------------------------------------------------------------------------------------

/// The value of a binary operation on two `i32` values, as the machine computes it; `None`
/// where the division has no result (division by zero, or `i32::MIN / -1`).
pub open spec fn binop_value(op: BinaryOp, a: i32, b: i32) -> Option<i32> {
    match op {
        BinaryOp::Add => Some(wrap(a + b)),
        BinaryOp::Subtract => Some(wrap(a - b)),
        BinaryOp::Multiply => Some(wrap(a * b)),
        BinaryOp::Divide => if b == 0 || trunc_div(a as int, b as int) < i32::MIN || trunc_div(
            a as int,
            b as int,
        ) > i32::MAX {
            None
        } else {
            Some(trunc_div(a as int, b as int) as i32)
        },
        BinaryOp::Less => Some(bool_i32(a < b)),
        BinaryOp::LessEqual => Some(bool_i32(a <= b)),
        BinaryOp::Greater => Some(bool_i32(a > b)),
        BinaryOp::GreaterEqual => Some(bool_i32(a >= b)),
        BinaryOp::Equal => Some(bool_i32(a == b)),
        BinaryOp::Unequal => Some(bool_i32(a != b)),
    }
}

/// The value of a unary operation.
pub open spec fn unop_value(op: UnaryOp, a: i32) -> i32 {
    match op {
        UnaryOp::Negate => wrap(-a),
        UnaryOp::BitwiseNot => (-a - 1) as i32,
        UnaryOp::LogicalNot => bool_i32(a == 0),
    }
}

/// Evaluating an expression with 32-bit two's complement arithmetic, operands left to right,
/// `&&` and `||` short-circuiting, and each variable standing for the stack slot that `vars`
/// gives it: the value and the memory after the assignments. `None` where a division has no
/// result or a variable is undeclared.
pub open spec fn eval(e: Expression, vars: Seq<(Seq<char>, i32)>, m: spec_fn(int) -> i32) -> Option<
    (i32, spec_fn(int) -> i32),
>
    decreases e,
{
    match e {
        Expression::LiteralInt(v) => Some((v, m)),
        Expression::UnOp(op, x) => match eval(*x, vars, m) {
            Some((v, m1)) => Some((unop_value(op, v), m1)),
            None => None,
        },
        Expression::BinOp(op, a, b) => match eval(*a, vars, m) {
            Some((va, m1)) => match eval(*b, vars, m1) {
                Some((vb, m2)) => match binop_value(op, va, vb) {
                    Some(v) => Some((v, m2)),
                    None => None,
                },
                None => None,
            },
            None => None,
        },
        Expression::LogOp(op, a, b) => match eval(*a, vars, m) {
            Some((va, m1)) => match op {
                LogicalOp::Or => if va != 0 {
                    Some((1, m1))
                } else {
                    match eval(*b, vars, m1) {
                        Some((vb, m2)) => Some((bool_i32(vb != 0), m2)),
                        None => None,
                    }
                },
                LogicalOp::And => if va == 0 {
                    Some((0, m1))
                } else {
                    match eval(*b, vars, m1) {
                        Some((vb, m2)) => Some((bool_i32(vb != 0), m2)),
                        None => None,
                    }
                },
            },
            None => None,
        },
        Expression::Assign(name, x) => match eval(*x, vars, m) {
            Some((v, m1)) => match lookup(vars, name@) {
                Some(off) => Some((v, mem_update(m1, off as int, v))),
                None => None,
            },
            None => None,
        },
        Expression::Var(name) => match lookup(vars, name@) {
            Some(off) => Some((m(off as int), m)),
            None => None,
        },
    }
}


// ---------------------------------------------------------------------------------------------
// Running sequences
// ---------------------------------------------------------------------------------------------

proof fn lemma_run_append(a: Seq<Instr>, b: Seq<Instr>, s: Machine)
    ensures
        run(a + b, s) == run(b, run(a, s)),
    decreases a.len(),
{
    if a.len() == 0 {
        assert(a + b =~= b);
    } else {
        assert((a + b)[0] == a[0]);
        assert((a + b).drop_first() =~= a.drop_first() + b);
        lemma_run_append(a.drop_first(), b, step(a[0], s));
    }
}

proof fn lemma_run_one(i: Instr, s: Machine)
    ensures
        run(seq![i], s) == step(i, s),
{
    assert(seq![i][0] == i);
    assert(seq![i].drop_first() =~= Seq::<Instr>::empty());
    assert(run(Seq::<Instr>::empty(), step(i, s)) == step(i, s));
}

proof fn lemma_run_push(c: Seq<Instr>, i: Instr, s: Machine)
    ensures
        run(c.push(i), s) == step(i, run(c, s)),
{
    assert(c.push(i) =~= c + seq![i]);
    lemma_run_append(c, seq![i], s);
    lemma_run_one(i, run(c, s));
}

proof fn lemma_run2(a: Instr, b: Instr, s: Machine)
    ensures
        run(seq![a, b], s) == step(b, step(a, s)),
{
    assert(seq![a, b] =~= seq![a].push(b));
    lemma_run_push(seq![a], b, s);
    lemma_run_one(a, s);
}

proof fn lemma_run3(a: Instr, b: Instr, c: Instr, s: Machine)
    ensures
        run(seq![a, b, c], s) == step(c, step(b, step(a, s))),
{
    assert(seq![a, b, c] =~= seq![a, b].push(c));
    lemma_run_push(seq![a, b], c, s);
    lemma_run2(a, b, s);
}

proof fn lemma_run4(a: Instr, b: Instr, c: Instr, d: Instr, s: Machine)
    ensures
        run(seq![a, b, c, d], s) == step(d, step(c, step(b, step(a, s)))),
{
    assert(seq![a, b, c, d] =~= seq![a, b, c].push(d));
    lemma_run_push(seq![a, b, c], d, s);
    lemma_run3(a, b, c, s);
}

proof fn lemma_run5(a: Instr, b: Instr, c: Instr, d: Instr, e: Instr, s: Machine)
    ensures
        run(seq![a, b, c, d, e], s) == step(e, step(d, step(c, step(b, step(a, s))))),
{
    assert(seq![a, b, c, d, e] =~= seq![a, b, c, d].push(e));
    lemma_run_push(seq![a, b, c, d], e, s);
    lemma_run4(a, b, c, d, s);
}

proof fn lemma_run7(a: Instr, b: Instr, c: Instr, d: Instr, e: Instr, f: Instr, g: Instr, s: Machine)
    ensures
        run(seq![a, b, c, d, e, f, g], s) == step(
            g,
            step(f, step(e, step(d, step(c, step(b, step(a, s)))))),
        ),
{
    assert(seq![a, b, c, d, e, f, g] =~= seq![a, b, c, d, e, f].push(g));
    assert(seq![a, b, c, d, e, f] =~= seq![a, b, c, d, e].push(f));
    lemma_run_push(seq![a, b, c, d, e, f], g, s);
    lemma_run_push(seq![a, b, c, d, e], f, s);
    lemma_run5(a, b, c, d, e, s);
}

/// While a jump to `l` is in progress, code that does not place `l` changes nothing.
proof fn lemma_run_skipping(c: Seq<Instr>, s: Machine, l: Label)
    requires
        s.skip == Some(l),
        forall|k: int| 0 <= k < c.len() ==> label_of(#[trigger] c[k]) != Some(l),
    ensures
        run(c, s) == s,
    decreases c.len(),
{
    if c.len() > 0 {
        reveal(step);
        assert(label_of(c[0]) != Some(l));
        assert forall|k: int| 0 <= k < c.drop_first().len() implies label_of(
            #[trigger] c.drop_first()[k],
        ) != Some(l) by {
            assert(c.drop_first()[k] == c[k + 1]);
        }
        lemma_run_skipping(c.drop_first(), s, l);
    }
}

// ---------------------------------------------------------------------------------------------
// Facts of evaluation
// ---------------------------------------------------------------------------------------------

/// Every variable of `vars` lives at offset `base` or above.
pub open spec fn vars_at_or_above(vars: Seq<(Seq<char>, i32)>, base: int) -> bool {
    forall|k: int| 0 <= k < vars.len() ==> #[trigger] vars[k].1 >= base
}

/// Two memories hold the same values at offset `base` and above.
pub open spec fn agree_above(m1: spec_fn(int) -> i32, m2: spec_fn(int) -> i32, base: int) -> bool {
    forall|off: int| off >= base ==> #[trigger] m1(off) == m2(off)
}

proof fn lemma_lookup_bound(vars: Seq<(Seq<char>, i32)>, name: Seq<char>, base: int)
    requires
        vars_at_or_above(vars, base),
    ensures
        lookup(vars, name) matches Some(off) ==> off >= base,
    decreases vars.len(),
{
    if vars.len() > 0 {
        assert(vars[0].1 >= base);
        assert forall|k: int| 0 <= k < vars.drop_first().len() implies #[trigger] vars.drop_first()[k].1
            >= base by {
            assert(vars.drop_first()[k] == vars[k + 1]);
        }
        lemma_lookup_bound(vars.drop_first(), name, base);
    }
}

/// Evaluation writes no slot below the variables.
proof fn lemma_eval_frame(e: Expression, vars: Seq<(Seq<char>, i32)>, m: spec_fn(int) -> i32, base: int)
    requires
        vars_at_or_above(vars, base),
        eval(e, vars, m) is Some,
    ensures
        forall|off: int| off < base ==> #[trigger] (eval(e, vars, m)->Some_0.1)(off) == m(off),
    decreases e,
{
    match e {
        Expression::LiteralInt(_) => {},
        Expression::Var(_) => {},
        Expression::UnOp(_, x) => {
            lemma_eval_frame(*x, vars, m, base);
        },
        Expression::Assign(name, x) => {
            lemma_eval_frame(*x, vars, m, base);
            lemma_lookup_bound(vars, name@, base);
        },
        Expression::BinOp(_, a, b) => {
            lemma_eval_frame(*a, vars, m, base);
            let m1 = eval(*a, vars, m)->Some_0.1;
            lemma_eval_frame(*b, vars, m1, base);
        },
        Expression::LogOp(_, a, b) => {
            lemma_eval_frame(*a, vars, m, base);
            let m1 = eval(*a, vars, m)->Some_0.1;
            if eval(*b, vars, m1) is Some {
                lemma_eval_frame(*b, vars, m1, base);
            }
        },
    }
}

/// Evaluation depends on the variables' slots only.
proof fn lemma_eval_congruent(
    e: Expression,
    vars: Seq<(Seq<char>, i32)>,
    m1: spec_fn(int) -> i32,
    m2: spec_fn(int) -> i32,
    base: int,
)
    requires
        vars_at_or_above(vars, base),
        agree_above(m1, m2, base),
    ensures
        eval(e, vars, m1) is Some <==> eval(e, vars, m2) is Some,
        eval(e, vars, m1) is Some ==> eval(e, vars, m1)->Some_0.0 == eval(e, vars, m2)->Some_0.0
            && agree_above(eval(e, vars, m1)->Some_0.1, eval(e, vars, m2)->Some_0.1, base),
    decreases e,
{
    match e {
        Expression::LiteralInt(_) => {},
        Expression::Var(name) => {
            lemma_lookup_bound(vars, name@, base);
        },
        Expression::UnOp(_, x) => {
            lemma_eval_congruent(*x, vars, m1, m2, base);
        },
        Expression::Assign(name, x) => {
            lemma_eval_congruent(*x, vars, m1, m2, base);
            lemma_lookup_bound(vars, name@, base);
        },
        Expression::BinOp(_, a, b) => {
            lemma_eval_congruent(*a, vars, m1, m2, base);
            if eval(*a, vars, m1) is Some {
                lemma_eval_congruent(
                    *b,
                    vars,
                    eval(*a, vars, m1)->Some_0.1,
                    eval(*a, vars, m2)->Some_0.1,
                    base,
                );
            }
        },
        Expression::LogOp(_, a, b) => {
            lemma_eval_congruent(*a, vars, m1, m2, base);
            if eval(*a, vars, m1) is Some {
                lemma_eval_congruent(
                    *b,
                    vars,
                    eval(*a, vars, m1)->Some_0.1,
                    eval(*a, vars, m2)->Some_0.1,
                    base,
                );
            }
        },
    }
}


// ---------------------------------------------------------------------------------------------
// The code of an expression computes its value
// ---------------------------------------------------------------------------------------------

proof fn lemma_set_al_zero(b: bool)
    ensures
        set_al(0, b) == bool_i32(b),
{
}

/// A step of a running machine, with no jump in progress, is the instruction's effect.
proof fn lemma_step_running(i: Instr, s: Machine)
    requires
        !s.fault,
        s.skip is None,
    ensures
        step(i, s) == exec_instr(i, s),
{
    reveal(step);
}

/// A step of a machine with a jump in progress: only the jump's label ends it.
proof fn lemma_step_skipping(i: Instr, s: Machine)
    requires
        !s.fault,
        s.skip is Some,
    ensures
        step(i, s) == if label_of(i) == s.skip {
            Machine { skip: None, ..s }
        } else {
            s
        },
{
    reveal(step);
}

#[verifier::spinoff_prover]
proof fn lemma_compare_finish(setcc: Instr, t: Machine, b: bool)
    requires
        !t.fault,
        t.skip is None,
        setcc is SetE || setcc is SetNe || setcc is SetL || setcc is SetLe || setcc is SetG || setcc is SetGe,
        b == (match setcc {
            Instr::SetE => t.ecx == t.eax,
            Instr::SetNe => t.ecx != t.eax,
            Instr::SetL => t.ecx < t.eax,
            Instr::SetLe => t.ecx <= t.eax,
            Instr::SetG => t.ecx > t.eax,
            _ => t.ecx >= t.eax,
        }),
    ensures
        ({
            let u = run(seq![Instr::CmpEaxEcx, Instr::MovImm(0), setcc], t);
            &&& u.eax == bool_i32(b)
            &&& u.rsp == t.rsp
            &&& u.skip is None
            &&& !u.fault
            &&& u.mem == t.mem
        }),
{
    lemma_run3(Instr::CmpEaxEcx, Instr::MovImm(0), setcc, t);
    let w1 = step(Instr::CmpEaxEcx, t);
    lemma_step_running(Instr::CmpEaxEcx, t);
    let w2 = step(Instr::MovImm(0), w1);
    lemma_step_running(Instr::MovImm(0), w1);
    lemma_step_running(setcc, w2);
    lemma_set_al_zero(b);
}

#[verifier::spinoff_prover]
proof fn lemma_divide_finish(t: Machine)
    requires
        !t.fault,
        t.skip is None,
        binop_value(BinaryOp::Divide, t.ecx, t.eax) is Some,
    ensures
        ({
            let u = run(binop_code(BinaryOp::Divide), t);
            &&& u.eax == binop_value(BinaryOp::Divide, t.ecx, t.eax)->Some_0
            &&& u.rsp == t.rsp
            &&& u.skip is None
            &&& !u.fault
            &&& agree_above(u.mem, t.mem, t.rsp)
        }),
{
    lemma_run5(Instr::PushRcx, Instr::MovEaxEcx, Instr::PopRax, Instr::Cdq, Instr::IdivEcx, t);
    let w1 = step(Instr::PushRcx, t);
    lemma_step_running(Instr::PushRcx, t);
    let w2 = step(Instr::MovEaxEcx, w1);
    lemma_step_running(Instr::MovEaxEcx, w1);
    let w3 = step(Instr::PopRax, w2);
    lemma_step_running(Instr::PopRax, w2);
    let w4 = step(Instr::Cdq, w3);
    lemma_step_running(Instr::Cdq, w3);
    lemma_step_running(Instr::IdivEcx, w4);
    assert(w3.eax == t.ecx && w3.ecx == t.eax && w3.rsp == t.rsp);
    let low: int = if w4.eax < 0 {
        w4.eax + 0x1_0000_0000
    } else {
        w4.eax as int
    };
    assert(w4.edx * 0x1_0000_0000 + low == t.ecx as int);
}

/// The end of a binary operation: with the first operand pushed and the second in `%eax`, the
/// pop and the operator's code leave the value in `%eax`.
#[verifier::spinoff_prover]
proof fn lemma_binop_finish(op: BinaryOp, t: Machine, va: i32, vb: i32)
    requires
        !t.fault,
        t.skip is None,
        (t.mem)(t.rsp) == va,
        t.eax == vb,
        binop_value(op, va, vb) is Some,
    ensures
        ({
            let u = run(seq![Instr::PopRcx] + binop_code(op), t);
            &&& u.eax == binop_value(op, va, vb)->Some_0
            &&& u.rsp == t.rsp + 8
            &&& u.skip is None
            &&& !u.fault
            &&& agree_above(u.mem, t.mem, t.rsp + 8)
        }),
{
    let t4 = step(Instr::PopRcx, t);
    lemma_step_running(Instr::PopRcx, t);
    lemma_run_append(seq![Instr::PopRcx], binop_code(op), t);
    lemma_run_one(Instr::PopRcx, t);
    assert(t4.ecx == va && t4.eax == vb && t4.rsp == t.rsp + 8 && t4.mem == t.mem);
    match op {
        BinaryOp::Add => {
            lemma_run_one(Instr::AddEcxEax, t4);
            lemma_step_running(Instr::AddEcxEax, t4);
        },
        BinaryOp::Subtract => {
            lemma_run2(Instr::SubEaxEcx, Instr::MovEcxEax, t4);
            lemma_step_running(Instr::SubEaxEcx, t4);
            lemma_step_running(Instr::MovEcxEax, step(Instr::SubEaxEcx, t4));
        },
        BinaryOp::Multiply => {
            lemma_run_one(Instr::ImulEcxEax, t4);
            lemma_step_running(Instr::ImulEcxEax, t4);
        },
        BinaryOp::Divide => {
            lemma_divide_finish(t4);
        },
        BinaryOp::Equal => {
            lemma_compare_finish(Instr::SetE, t4, va == vb);
        },
        BinaryOp::Unequal => {
            lemma_compare_finish(Instr::SetNe, t4, va != vb);
        },
        BinaryOp::Less => {
            lemma_compare_finish(Instr::SetL, t4, va < vb);
        },
        BinaryOp::LessEqual => {
            lemma_compare_finish(Instr::SetLe, t4, va <= vb);
        },
        BinaryOp::Greater => {
            lemma_compare_finish(Instr::SetG, t4, va > vb);
        },
        BinaryOp::GreaterEqual => {
            lemma_compare_finish(Instr::SetGe, t4, va >= vb);
        },
    }
}


/// The first operand settles a logical operation: `||` with a true, `&&` with a false first
/// operand.
pub open spec fn settles(op: LogicalOp, va: i32) -> bool {
    match op {
        LogicalOp::Or => va != 0,
        LogicalOp::And => va == 0,
    }
}

/// A logical operation settled by its first operand: its head sets the result and jumps over
/// the second operand's code and the tail.
proof fn lemma_logop_settled(op: LogicalOp, n: i32, cb: Seq<Instr>, t: Machine)
    requires
        !t.fault,
        t.skip is None,
        settles(op, t.eax),
        forall|k: int| 0 <= k < cb.len() ==> label_of(#[trigger] cb[k]) != Some(Label::End(n)),
    ensures
        ({
            let u = run(logop_head(op, n) + cb + logop_tail(n), t);
            &&& u.eax == (if op is Or {
                1i32
            } else {
                0i32
            })
            &&& u.rsp == t.rsp
            &&& u.skip is None
            &&& !u.fault
            &&& agree_above(u.mem, t.mem, t.rsp)
        }),
{
    let head = logop_head(op, n);
    let tail = logop_tail(n);
    lemma_run_append(head + cb, tail, t);
    lemma_run_append(head, cb, t);
    let (i4, i5) = match op {
        LogicalOp::Or => (Instr::JeClause(n), Instr::MovImm(1)),
        LogicalOp::And => (Instr::JneClause(n), Instr::MovImm(0)),
    };
    assert(head == seq![
        Instr::PushRax,
        Instr::PopRcx,
        Instr::CmpZeroEcx,
        i4,
        i5,
        Instr::JmpEnd(n),
        Instr::ClauseLabel(n),
    ]);
    lemma_run7(
        Instr::PushRax,
        Instr::PopRcx,
        Instr::CmpZeroEcx,
        i4,
        i5,
        Instr::JmpEnd(n),
        Instr::ClauseLabel(n),
        t,
    );
    let w1 = step(Instr::PushRax, t);
    lemma_step_running(Instr::PushRax, t);
    let w2 = step(Instr::PopRcx, w1);
    lemma_step_running(Instr::PopRcx, w1);
    let w3 = step(Instr::CmpZeroEcx, w2);
    lemma_step_running(Instr::CmpZeroEcx, w2);
    assert(w3.flags == (t.eax, 0i32));
    let w4 = step(i4, w3);
    lemma_step_running(i4, w3);
    assert(w4 == w3);
    let w5 = step(i5, w4);
    lemma_step_running(i5, w4);
    let w6 = step(Instr::JmpEnd(n), w5);
    lemma_step_running(Instr::JmpEnd(n), w5);
    let w7 = step(Instr::ClauseLabel(n), w6);
    lemma_step_skipping(Instr::ClauseLabel(n), w6);
    assert(w7 == w6);
    lemma_run_skipping(cb, w7, Label::End(n));
    lemma_run4(Instr::CmpZeroEax, Instr::MovImm(0), Instr::SetNe, Instr::EndLabel(n), w7);
    lemma_step_skipping(Instr::CmpZeroEax, w7);
    lemma_step_skipping(Instr::MovImm(0), w7);
    lemma_step_skipping(Instr::SetNe, w7);
    lemma_step_skipping(Instr::EndLabel(n), w7);
}

/// A logical operation not settled by its first operand: its head jumps to the second operand,
/// with the stack pointer and the slots at or above it unchanged.
proof fn lemma_logop_continues(op: LogicalOp, n: i32, t: Machine)
    requires
        !t.fault,
        t.skip is None,
        !settles(op, t.eax),
    ensures
        ({
            let u = run(logop_head(op, n), t);
            &&& u.rsp == t.rsp
            &&& u.skip is None
            &&& !u.fault
            &&& agree_above(u.mem, t.mem, t.rsp)
        }),
{
    let head = logop_head(op, n);
    let (i4, i5) = match op {
        LogicalOp::Or => (Instr::JeClause(n), Instr::MovImm(1)),
        LogicalOp::And => (Instr::JneClause(n), Instr::MovImm(0)),
    };
    assert(head == seq![
        Instr::PushRax,
        Instr::PopRcx,
        Instr::CmpZeroEcx,
        i4,
        i5,
        Instr::JmpEnd(n),
        Instr::ClauseLabel(n),
    ]);
    lemma_run7(
        Instr::PushRax,
        Instr::PopRcx,
        Instr::CmpZeroEcx,
        i4,
        i5,
        Instr::JmpEnd(n),
        Instr::ClauseLabel(n),
        t,
    );
    let w1 = step(Instr::PushRax, t);
    lemma_step_running(Instr::PushRax, t);
    let w2 = step(Instr::PopRcx, w1);
    lemma_step_running(Instr::PopRcx, w1);
    let w3 = step(Instr::CmpZeroEcx, w2);
    lemma_step_running(Instr::CmpZeroEcx, w2);
    assert(w3.flags == (t.eax, 0i32));
    let w4 = step(i4, w3);
    lemma_step_running(i4, w3);
    assert(w4.skip == Some(Label::Clause(n)));
    let w5 = step(i5, w4);
    lemma_step_skipping(i5, w4);
    let w6 = step(Instr::JmpEnd(n), w5);
    lemma_step_skipping(Instr::JmpEnd(n), w5);
    lemma_step_skipping(Instr::ClauseLabel(n), w6);
}

/// The tail of a logical operation turns the second operand into `0` or `1`.
proof fn lemma_logop_tail(n: i32, t: Machine)
    requires
        !t.fault,
        t.skip is None,
    ensures
        ({
            let u = run(logop_tail(n), t);
            &&& u.eax == bool_i32(t.eax != 0)
            &&& u.rsp == t.rsp
            &&& u.skip is None
            &&& !u.fault
            &&& u.mem == t.mem
        }),
{
    lemma_run4(Instr::CmpZeroEax, Instr::MovImm(0), Instr::SetNe, Instr::EndLabel(n), t);
    let w1 = step(Instr::CmpZeroEax, t);
    lemma_step_running(Instr::CmpZeroEax, t);
    let w2 = step(Instr::MovImm(0), w1);
    lemma_step_running(Instr::MovImm(0), w1);
    let w3 = step(Instr::SetNe, w2);
    lemma_step_running(Instr::SetNe, w2);
    lemma_set_al_zero(t.eax != 0);
    lemma_step_running(Instr::EndLabel(n), w3);
}


/// The code of an expression computes its value. Run from a machine with no jump in progress
/// whose variables' slots lie at or above the stack pointer, the code of `e` leaves the value
/// of `e` in `%eax`, the stack pointer where it was, no jump in progress and no fault, and the
/// slots at or above the stack pointer as evaluating `e` leaves them; wherever the evaluation
/// has a result (no division by zero or overflow) and the generator accepts the expression.
#[verifier::spinoff_prover]
#[verifier::rlimit(40)]
pub proof fn lemma_expression_code_computes_value(
    e: Expression,
    jc: i32,
    vars: Seq<(Seq<char>, i32)>,
    s: Machine,
)
    requires
        expr_code(e, jc, vars) is Ok,
        eval(e, vars, s.mem) is Some,
        !s.fault,
        s.skip is None,
        vars_at_or_above(vars, s.rsp),
    ensures
        ({
            let c = expr_code(e, jc, vars)->Ok_0.0;
            let (v, m) = eval(e, vars, s.mem)->Some_0;
            let t = run(c, s);
            &&& t.eax == v
            &&& t.rsp == s.rsp
            &&& t.skip is None
            &&& !t.fault
            &&& agree_above(t.mem, m, s.rsp)
        }),
    decreases e,
{
    let c = expr_code(e, jc, vars)->Ok_0.0;
    match e {
        Expression::LiteralInt(v) => {
            lemma_run_one(Instr::MovImm(v), s);
            lemma_step_running(Instr::MovImm(v), s);
        },
        Expression::Var(name) => {
            let off = lookup(vars, name@)->Some_0;
            lemma_run_one(Instr::Load(off), s);
            lemma_step_running(Instr::Load(off), s);
        },
        Expression::UnOp(op, x) => {
            lemma_expression_code_computes_value(*x, jc, vars, s);
            let cx = expr_code(*x, jc, vars)->Ok_0.0;
            let t1 = run(cx, s);
            lemma_run_append(cx, unop_code(op), s);
            match op {
                UnaryOp::Negate => {
                    lemma_run_one(Instr::Neg, t1);
                    lemma_step_running(Instr::Neg, t1);
                },
                UnaryOp::BitwiseNot => {
                    lemma_run_one(Instr::Not, t1);
                    lemma_step_running(Instr::Not, t1);
                },
                UnaryOp::LogicalNot => {
                    lemma_run3(Instr::CmpZeroEax, Instr::MovImm(0), Instr::SetE, t1);
                    let w1 = step(Instr::CmpZeroEax, t1);
                    lemma_step_running(Instr::CmpZeroEax, t1);
                    let w2 = step(Instr::MovImm(0), w1);
                    lemma_step_running(Instr::MovImm(0), w1);
                    lemma_step_running(Instr::SetE, w2);
                    lemma_set_al_zero(t1.eax == 0);
                },
            }
        },
        Expression::Assign(name, x) => {
            lemma_expression_code_computes_value(*x, jc, vars, s);
            let cx = expr_code(*x, jc, vars)->Ok_0.0;
            let t1 = run(cx, s);
            let off = lookup(vars, name@)->Some_0;
            lemma_run_append(cx, seq![Instr::Store(off)], s);
            lemma_run_one(Instr::Store(off), t1);
            lemma_step_running(Instr::Store(off), t1);
        },
        Expression::BinOp(op, a, b) => {
            let rsp = s.rsp;
            lemma_expression_code_computes_value(*a, jc, vars, s);
            let (ca, j1) = expr_code(*a, jc, vars)->Ok_0;
            let (cb, j2) = expr_code(*b, j1, vars)->Ok_0;
            let (va, m1) = eval(*a, vars, s.mem)->Some_0;
            let t1 = run(ca, s);
            let t2 = step(Instr::PushRax, t1);
            lemma_step_running(Instr::PushRax, t1);
            lemma_run_one(Instr::PushRax, t1);
            assert(agree_above(t2.mem, m1, rsp));
            lemma_eval_congruent(*b, vars, m1, t2.mem, rsp);
            let (vb, m2) = eval(*b, vars, m1)->Some_0;
            let (vb2, m2b) = eval(*b, vars, t2.mem)->Some_0;
            lemma_expression_code_computes_value(*b, j1, vars, t2);
            lemma_eval_frame(*b, vars, t2.mem, rsp);
            let t3 = run(cb, t2);
            assert((t3.mem)(t3.rsp) == va);
            lemma_binop_finish(op, t3, va, vb);
            assert(c =~= ca + seq![Instr::PushRax] + cb + (seq![Instr::PopRcx] + binop_code(op)));
            lemma_run_append(ca, seq![Instr::PushRax], s);
            lemma_run_append(ca + seq![Instr::PushRax], cb, s);
            lemma_run_append(
                ca + seq![Instr::PushRax] + cb,
                seq![Instr::PopRcx] + binop_code(op),
                s,
            );
        },
        Expression::LogOp(op, a, b) => {
            let rsp = s.rsp;
            lemma_expression_code_computes_value(*a, jc, vars, s);
            let (ca, j1) = expr_code(*a, jc, vars)->Ok_0;
            let (cb, j2) = expr_code(*b, (j1 + 1) as i32, vars)->Ok_0;
            let (va, m1) = eval(*a, vars, s.mem)->Some_0;
            let head = logop_head(op, j1);
            let tail = logop_tail(j1);
            let t1 = run(ca, s);
            lemma_expr_code_labels(*b, (j1 + 1) as i32, vars);
            assert(c =~= ca + (head + cb + tail));
            lemma_run_append(ca, head + cb + tail, s);
            if settles(op, va) {
                lemma_logop_settled(op, j1, cb, t1);
            } else {
                lemma_logop_continues(op, j1, t1);
                let th = run(head, t1);
                lemma_eval_congruent(*b, vars, m1, th.mem, rsp);
                lemma_expression_code_computes_value(*b, (j1 + 1) as i32, vars, th);
                let tb = run(cb, th);
                lemma_logop_tail(j1, tb);
                lemma_run_append(head, cb, t1);
                lemma_run_append(head + cb, tail, t1);
            }
        },
    }
}


// ---------------------------------------------------------------------------------------------
// The code of a function body returns its value
// ---------------------------------------------------------------------------------------------

/// The value that a function body returns, run statement by statement: a `return` gives its
/// expression's value; a body that ends without one returns `0`. Each declaration takes the
/// slot at stack index `si` and the next lower index goes to the next one; a declaration
/// without initializer holds `0`. `None` where an evaluation has no result, a variable is
/// declared twice, the stack index would pass `i32::MIN`, or a conditional statement comes
/// (the generator gives it no code).
pub open spec fn body_value(
    items: Seq<BlockItem>,
    vars: Seq<(Seq<char>, i32)>,
    si: i32,
    m: spec_fn(int) -> i32,
) -> Option<i32>
    decreases items.len(),
{
    if items.len() == 0 {
        Some(0)
    } else {
        match items[0] {
            BlockItem::Stmt(Statement::Ret(x)) => match eval(x, vars, m) {
                Some((v, _)) => Some(v),
                None => None,
            },
            BlockItem::Stmt(Statement::Expr(x)) => match eval(x, vars, m) {
                Some((_, m1)) => body_value(items.drop_first(), vars, si, m1),
                None => None,
            },
            BlockItem::Stmt(Statement::Cond(_, _, _)) => None,
            BlockItem::Decl(name, init) => if lookup(vars, name@) is Some || si < i32::MIN + 8 {
                None
            } else {
                match decl_value(init, vars, m) {
                    Some((v, m1)) => body_value(
                        items.drop_first(),
                        vars.push((name@, si)),
                        (si - 8) as i32,
                        mem_update(m1, si as int, v),
                    ),
                    None => None,
                }
            },
        }
    }
}

/// The initial value of a declared variable, and the memory after its initializer.
pub open spec fn decl_value(init: Option<Expression>, vars: Seq<(Seq<char>, i32)>, m: spec_fn(int) -> i32) -> Option<
    (i32, spec_fn(int) -> i32),
> {
    match init {
        Some(x) => eval(x, vars, m),
        None => Some((0i32, m)),
    }
}

/// The code that a function body runs: its block items, then `movl $0, %eax` where it holds
/// no return statement.
pub open spec fn body_run_code(items: Seq<BlockItem>, st: GenState) -> Seq<Instr> {
    items_code(items, st)->Ok_0.0 + if has_return(items) {
        Seq::empty()
    } else {
        seq![Instr::MovImm(0)]
    }
}

/// Two memories hold the same values in the slots of the variables.
pub open spec fn agree_on_vars(vars: Seq<(Seq<char>, i32)>, m1: spec_fn(int) -> i32, m2: spec_fn(int) -> i32) -> bool {
    forall|k: int| 0 <= k < vars.len() ==> m1(#[trigger] vars[k].1 as int) == m2(vars[k].1 as int)
}

proof fn lemma_lookup_found(vars: Seq<(Seq<char>, i32)>, name: Seq<char>)
    requires
        lookup(vars, name) is Some,
    ensures
        exists|k: int| 0 <= k < vars.len() && vars[k].1 == lookup(vars, name)->Some_0,
    decreases vars.len(),
{
    if vars[0].0 != name {
        lemma_lookup_found(vars.drop_first(), name);
        let k = choose|k: int| 0 <= k < vars.drop_first().len() && vars.drop_first()[k].1 == lookup(vars, name)->Some_0;
        assert(vars[k + 1] == vars.drop_first()[k]);
    } else {
        assert(vars[0].1 == lookup(vars, name)->Some_0);
    }
}

/// Evaluation depends on the variables' slots only, and keeps memories that agree there in
/// agreement.
proof fn lemma_eval_congruent_vars(
    e: Expression,
    vars: Seq<(Seq<char>, i32)>,
    m1: spec_fn(int) -> i32,
    m2: spec_fn(int) -> i32,
)
    requires
        agree_on_vars(vars, m1, m2),
    ensures
        eval(e, vars, m1) is Some <==> eval(e, vars, m2) is Some,
        eval(e, vars, m1) is Some ==> eval(e, vars, m1)->Some_0.0 == eval(e, vars, m2)->Some_0.0
            && agree_on_vars(vars, eval(e, vars, m1)->Some_0.1, eval(e, vars, m2)->Some_0.1),
    decreases e,
{
    match e {
        Expression::LiteralInt(_) => {},
        Expression::Var(name) => {
            if lookup(vars, name@) is Some {
                lemma_lookup_found(vars, name@);
                let k = choose|k: int| 0 <= k < vars.len() && vars[k].1 == lookup(vars, name@)->Some_0;
                assert(m1(vars[k].1 as int) == m2(vars[k].1 as int));
            }
        },
        Expression::UnOp(_, x) => {
            lemma_eval_congruent_vars(*x, vars, m1, m2);
        },
        Expression::Assign(name, x) => {
            lemma_eval_congruent_vars(*x, vars, m1, m2);
        },
        Expression::BinOp(_, a, b) => {
            lemma_eval_congruent_vars(*a, vars, m1, m2);
            if eval(*a, vars, m1) is Some {
                lemma_eval_congruent_vars(
                    *b,
                    vars,
                    eval(*a, vars, m1)->Some_0.1,
                    eval(*a, vars, m2)->Some_0.1,
                );
            }
        },
        Expression::LogOp(_, a, b) => {
            lemma_eval_congruent_vars(*a, vars, m1, m2);
            if eval(*a, vars, m1) is Some {
                lemma_eval_congruent_vars(
                    *b,
                    vars,
                    eval(*a, vars, m1)->Some_0.1,
                    eval(*a, vars, m2)->Some_0.1,
                );
            }
        },
    }
}

/// The value of a body depends on the variables' slots only.
proof fn lemma_body_value_congruent(
    items: Seq<BlockItem>,
    vars: Seq<(Seq<char>, i32)>,
    si: i32,
    m1: spec_fn(int) -> i32,
    m2: spec_fn(int) -> i32,
)
    requires
        agree_on_vars(vars, m1, m2),
    ensures
        body_value(items, vars, si, m1) == body_value(items, vars, si, m2),
    decreases items.len(),
{
    if items.len() > 0 {
        let rest = items.drop_first();
        match items[0] {
            BlockItem::Stmt(Statement::Ret(x)) => {
                lemma_eval_congruent_vars(x, vars, m1, m2);
            },
            BlockItem::Stmt(Statement::Expr(x)) => {
                lemma_eval_congruent_vars(x, vars, m1, m2);
                if eval(x, vars, m1) is Some {
                    lemma_body_value_congruent(
                        rest,
                        vars,
                        si,
                        eval(x, vars, m1)->Some_0.1,
                        eval(x, vars, m2)->Some_0.1,
                    );
                }
            },
            BlockItem::Stmt(Statement::Cond(_, _, _)) => {},
            BlockItem::Decl(name, init) => {
                if lookup(vars, name@) is None && si >= i32::MIN + 8 {
                    match init {
                        Some(x) => {
                            lemma_eval_congruent_vars(x, vars, m1, m2);
                        },
                        None => {},
                    }
                    if decl_value(init, vars, m1) is Some {
                        let (v, n1) = decl_value(init, vars, m1)->Some_0;
                        let n2 = decl_value(init, vars, m2)->Some_0.1;
                        let nv = vars.push((name@, si));
                        assert forall|k: int| 0 <= k < nv.len() implies mem_update(n1, si as int, v)(
                            #[trigger] nv[k].1 as int,
                        ) == mem_update(n2, si as int, v)(nv[k].1 as int) by {
                            if k < vars.len() {
                                assert(nv[k] == vars[k]);
                                assert(n1(vars[k].1 as int) == n2(vars[k].1 as int));
                            }
                        }
                        lemma_body_value_congruent(
                            rest,
                            nv,
                            (si - 8) as i32,
                            mem_update(n1, si as int, v),
                            mem_update(n2, si as int, v),
                        );
                    }
                }
            },
        }
    }
}


proof fn lemma_vars_push_above(vars: Seq<(Seq<char>, i32)>, x: (Seq<char>, i32), base: int)
    requires
        vars_at_or_above(vars, base + 8),
        x.1 == base,
    ensures
        vars_at_or_above(vars.push(x), base),
{
    assert forall|k: int| 0 <= k < vars.push(x).len() implies #[trigger] vars.push(x)[k].1
        >= base by {
        if k < vars.len() {
            assert(vars.push(x)[k] == vars[k]);
            assert(vars[k].1 >= base + 8);
        }
    }
}

proof fn lemma_has_return_tail(items: Seq<BlockItem>)
    requires
        items.len() > 0,
        !(items[0] matches BlockItem::Stmt(Statement::Ret(_))),
    ensures
        has_return(items) == has_return(items.drop_first()),
{
    let rest = items.drop_first();
    if has_return(items) {
        let i = choose|i: int| 0 <= i < items.len() && #[trigger] items[i] matches BlockItem::Stmt(
            Statement::Ret(_),
        );
        assert(rest[i - 1] == items[i]);
    }
    if has_return(rest) {
        let i = choose|i: int| 0 <= i < rest.len() && #[trigger] rest[i] matches BlockItem::Stmt(
            Statement::Ret(_),
        );
        assert(items[i + 1] == rest[i]);
    }
}

proof fn lemma_return_comes_last_tail(items: Seq<BlockItem>)
    requires
        items.len() > 0,
        return_comes_last(items),
    ensures
        return_comes_last(items.drop_first()),
{
    assert forall|k: int| 0 <= k < items.drop_first().len() - 1 implies !(
    #[trigger] items.drop_first()[k] matches BlockItem::Stmt(Statement::Ret(_))) by {
        assert(items.drop_first()[k] == items[k + 1]);
    }
}

/// The code of a function body returns the body's value. Run from a machine with no jump in
/// progress, whose stack pointer lies just above the next declaration's slot and at or below
/// the slots of the variables declared so far, the code of a body whose only `return`, if any,
/// comes last leaves in `%eax` the value that the body returns; wherever that value is defined
/// and the generator accepts the body.
#[verifier::spinoff_prover]
pub proof fn lemma_body_code_returns_value(items: Seq<BlockItem>, st: GenState, s: Machine)
    requires
        items_code(items, st) is Ok,
        body_value(items, st.vars, st.si, s.mem) is Some,
        return_comes_last(items),
        !s.fault,
        s.skip is None,
        vars_at_or_above(st.vars, s.rsp),
        s.rsp == st.si + 8,
    ensures
        run(body_run_code(items, st), s).eax == body_value(items, st.vars, st.si, s.mem)->Some_0,
        !run(body_run_code(items, st), s).fault,
    decreases items.len(),
{
    if items.len() == 0 {
        assert(!has_return(items));
        assert(body_run_code(items, st) =~= seq![Instr::MovImm(0)]);
        lemma_run_one(Instr::MovImm(0), s);
        lemma_step_running(Instr::MovImm(0), s);
    } else {
        let rest = items.drop_first();
        let (c0, st1) = item_code(items[0], st)->Ok_0;
        let rc = items_code(rest, st1)->Ok_0.0;
        match items[0] {
            BlockItem::Stmt(Statement::Ret(x)) => {
                assert(items.len() == 1);
                assert(rest =~= Seq::<BlockItem>::empty());
                assert(has_return(items)) by {
                    assert(items[0] matches BlockItem::Stmt(Statement::Ret(_)));
                }
                assert(body_run_code(items, st) =~= c0);
                lemma_expression_code_computes_value(x, st.jc, st.vars, s);
            },
            BlockItem::Stmt(Statement::Expr(x)) => {
                lemma_has_return_tail(items);
                lemma_return_comes_last_tail(items);
                assert(body_run_code(items, st) =~= c0 + body_run_code(rest, st1));
                lemma_run_append(c0, body_run_code(rest, st1), s);
                lemma_expression_code_computes_value(x, st.jc, st.vars, s);
                let t1 = run(c0, s);
                let m1 = eval(x, st.vars, s.mem)->Some_0.1;
                assert(agree_on_vars(st.vars, m1, t1.mem)) by {
                    assert forall|k: int| 0 <= k < st.vars.len() implies m1(
                        #[trigger] st.vars[k].1 as int,
                    ) == (t1.mem)(st.vars[k].1 as int) by {
                        assert(st.vars[k].1 >= s.rsp);
                    }
                }
                lemma_body_value_congruent(rest, st.vars, st.si, m1, t1.mem);
                lemma_body_code_returns_value(rest, st1, t1);
            },
            BlockItem::Stmt(Statement::Cond(_, _, _)) => {},
            BlockItem::Decl(name, init) => {
                lemma_has_return_tail(items);
                lemma_return_comes_last_tail(items);
                assert(body_run_code(items, st) =~= c0 + body_run_code(rest, st1));
                lemma_run_append(c0, body_run_code(rest, st1), s);
                let si = st.si;
                let (v, m1) = decl_value(init, st.vars, s.mem)->Some_0;
                let t1 = match init {
                    Some(x) => run(expr_code(x, st.jc, st.vars)->Ok_0.0, s),
                    None => step(Instr::MovImm(0), s),
                };
                match init {
                    Some(x) => {
                        let cx = expr_code(x, st.jc, st.vars)->Ok_0.0;
                        lemma_expression_code_computes_value(x, st.jc, st.vars, s);
                        assert(c0 =~= cx + seq![Instr::PushRax]);
                        lemma_run_append(cx, seq![Instr::PushRax], s);
                        lemma_run_one(Instr::PushRax, t1);
                    },
                    None => {
                        lemma_run2(Instr::MovImm(0), Instr::PushRax, s);
                        lemma_step_running(Instr::MovImm(0), s);
                    },
                }
                let t2 = step(Instr::PushRax, t1);
                lemma_step_running(Instr::PushRax, t1);
                assert(run(c0, s) == t2);
                let nv = st.vars.push((name@, si));
                assert(st1.vars == nv);
                lemma_vars_push_above(st.vars, (name@, si), si as int);
                assert(agree_on_vars(nv, mem_update(m1, si as int, v), t2.mem)) by {
                    assert forall|k: int| 0 <= k < nv.len() implies mem_update(m1, si as int, v)(
                        #[trigger] nv[k].1 as int,
                    ) == (t2.mem)(nv[k].1 as int) by {
                        if k < st.vars.len() {
                            assert(nv[k] == st.vars[k]);
                            assert(st.vars[k].1 >= s.rsp);
                        }
                    }
                }
                lemma_body_value_congruent(rest, nv, (si - 8) as i32, mem_update(m1, si as int, v), t2.mem);
                lemma_body_code_returns_value(rest, st1, t2);
            },
        }
    }
}


/// What a compiled program returns. Take functions `fs` that the parser read from the tokens
/// `t`, compiled from the jump counter `jc` and the stack index `si`. The assembly text is
/// that of the functions before the `k`-th, then the `k`-th function's label and prologue, the
/// text of the code `c` that its body runs, and its epilogue, then the text of the functions
/// after it. Run from a machine with no jump in progress whose stack pointer lies just above
/// the slot that the function's first declaration takes, `c` leaves in `%eax` the value that
/// the function's body returns; wherever that value is defined.
pub proof fn lemma_compiled_function_returns_value(
    t: Seq<Token>,
    fs: Seq<Function>,
    jc: i32,
    si: i32,
    k: int,
    s: Machine,
)
    requires
        program_syntax(t, 0) is Ok,
        fs.map_values(|f: Function| function_shape(f)) == program_syntax(t, 0)->Ok_0,
        functions_asm(fs, jc, si) is Ok,
        0 <= k < fs.len(),
        body_value(fs[k].child_block_items@, Seq::empty(), start_counters(fs, jc, si, k).1, s.mem) is Some,
        !s.fault,
        s.skip is None,
        s.rsp == start_counters(fs, jc, si, k).1 + 8,
    ensures
        ({
            let (j, sk) = start_counters(fs, jc, si, k);
            let c = body_run_code(fs[k].child_block_items@, GenState { jc: j, vars: Seq::empty(), si: sk });
            &&& functions_asm(fs, jc, si)->Ok_0.0 == functions_asm(fs.take(k), jc, si)->Ok_0.0 + (
            ".globl "@ + fs[k].name@ + "\n"@ + fs[k].name@ + ":\n"@ + "  push %rbp\n  mov %rsp, %rbp\n"@
                + render(c) + "  mov %rbp, %rsp\n  pop %rbp\n  ret\n"@) + functions_asm(
                fs.skip(k + 1),
                start_counters(fs, jc, si, k + 1).0,
                start_counters(fs, jc, si, k + 1).1,
            )->Ok_0.0
            &&& run(c, s).eax == body_value(fs[k].child_block_items@, Seq::empty(), sk, s.mem)->Some_0
        }),
{
    lemma_functions_asm_split(fs, jc, si, k);
    let (j, sk) = start_counters(fs, jc, si, k);
    let st = GenState { jc: j, vars: Seq::empty(), si: sk };
    lemma_function_text_is_body_code(fs[k], j, sk);
    lemma_program_returns_come_last(t, 0);
    assert(fs.map_values(|f: Function| function_shape(f))[k] == function_shape(fs[k]));
    assert(program_syntax(t, 0)->Ok_0[k].1 == fs[k].child_block_items@);
    assert(return_comes_last(fs[k].child_block_items@));
    lemma_body_code_returns_value(fs[k].child_block_items@, st, s);
}

/// The assembly text of a function is its label and prologue, the text of the code that its
/// body runs, and its epilogue.
pub proof fn lemma_function_text_is_body_code(f: Function, jc: i32, si: i32)
    requires
        function_asm(f, jc, si) is Ok,
    ensures
        function_asm(f, jc, si)->Ok_0.0 == ".globl "@ + f.name@ + "\n"@ + f.name@ + ":\n"@
            + "  push %rbp\n  mov %rsp, %rbp\n"@ + render(
            body_run_code(
                f.child_block_items@,
                GenState { jc: jc, vars: Seq::empty(), si: si },
            ),
        ) + "  mov %rbp, %rsp\n  pop %rbp\n  ret\n"@,
{
    let st = GenState { jc: jc, vars: Seq::empty(), si: si };
    let items = f.child_block_items@;
    let c = items_code(items, st)->Ok_0.0;
    if has_return(items) {
        assert(body_run_code(items, st) =~= c);
    } else {
        let z = seq![Instr::MovImm(0)];
        lemma_render_append(c, z);
        assert(z.drop_last() =~= Seq::<Instr>::empty());
        assert(z.last() == Instr::MovImm(0));
        assert(render(Seq::<Instr>::empty()) =~= Seq::<char>::empty());
        assert(render(z) =~= instr_text(Instr::MovImm(0)));
        assert(nat_text(0) == digit_text(0));
        assert(int_text(0) == "0"@);
        reveal_strlit("  movl $");
        reveal_strlit("0");
        reveal_strlit(", %eax\n");
        reveal_strlit("  movl $0, %eax\n");
        assert(instr_text(Instr::MovImm(0)) =~= "  movl $0, %eax\n"@);
        assert(body_run_code(items, st) =~= c + z);
    }
}


// ---------------------------------------------------------------------------------------------
// What expressions mean in C
// ---------------------------------------------------------------------------------------------

/// `v` and `x` are the same number modulo 2^32, as 32-bit two's complement arithmetic takes it.
pub open spec fn same_mod_2_32(v: int, x: int) -> bool {
    (v - x) % 0x1_0000_0000 == 0
}

/// `wrap` takes a number to the `i32` of the same value modulo 2^32.
pub proof fn lemma_wrap_is_modular(x: int)
    ensures
        same_mod_2_32(wrap(x) as int, x),
        i32::MIN <= x <= i32::MAX ==> wrap(x) == x,
{
    let d: int = 0x1_0000_0000;
    let y = x + 0x8000_0000;
    vstd::arithmetic::div_mod::lemma_fundamental_div_mod(y, d);
    let k = y / d;
    assert(wrap(x) as int == y % d - 0x8000_0000);
    assert(wrap(x) as int - x == -(d * k));
    assert(-(d * k) == (-k) * d) by (nonlinear_arith);
    vstd::arithmetic::div_mod::lemma_mod_multiples_basic(-k, d);
    if i32::MIN <= x <= i32::MAX {
        assert(0 <= y < d);
        vstd::arithmetic::div_mod::lemma_small_mod(y as nat, d as nat);
    }
}

/// Operations on two integer literals mean what they mean in C with 32-bit `int`s: `+`, `-`
/// and `*` give the exact result modulo 2^32; `/` is defined unless the divisor is 0 or the
/// quotient overflows (`i32::MIN / -1`), and then gives a quotient `q` rounded toward zero,
/// with `a == q * b + r`, `|r| < |b|` and `r` of the sign of `a` or 0; comparisons give 1 for
/// true and 0 for false.
pub proof fn lemma_binary_meaning(a: i32, b: i32, vars: Seq<(Seq<char>, i32)>, m: spec_fn(int) -> i32)
    ensures
        ({
            let la = Box::new(Expression::LiteralInt(a));
            let lb = Box::new(Expression::LiteralInt(b));
            &&& eval(Expression::BinOp(BinaryOp::Add, la, lb), vars, m) matches Some((v, _))
                && same_mod_2_32(v as int, a + b)
            &&& eval(Expression::BinOp(BinaryOp::Subtract, la, lb), vars, m) matches Some((v, _))
                && same_mod_2_32(v as int, a - b)
            &&& eval(Expression::BinOp(BinaryOp::Multiply, la, lb), vars, m) matches Some((v, _))
                && same_mod_2_32(v as int, a * b)
            &&& (b == 0 || (a == i32::MIN && b == -1)) ==> eval(
                Expression::BinOp(BinaryOp::Divide, la, lb),
                vars,
                m,
            ) is None
            &&& !(b == 0 || (a == i32::MIN && b == -1)) ==> (eval(
                Expression::BinOp(BinaryOp::Divide, la, lb),
                vars,
                m,
            ) matches Some((q, _)) && {
                let r = a - q * b;
                &&& (if r < 0 { -r } else { r }) < (if b < 0 { -b } else { b as int })
                &&& (r == 0 || (r < 0) == (a < 0))
            })
            &&& eval(Expression::BinOp(BinaryOp::Less, la, lb), vars, m) == Some((bool_i32(a < b), m))
            &&& eval(Expression::BinOp(BinaryOp::LessEqual, la, lb), vars, m) == Some((bool_i32(a <= b), m))
            &&& eval(Expression::BinOp(BinaryOp::Greater, la, lb), vars, m) == Some((bool_i32(a > b), m))
            &&& eval(Expression::BinOp(BinaryOp::GreaterEqual, la, lb), vars, m) == Some((bool_i32(a >= b), m))
            &&& eval(Expression::BinOp(BinaryOp::Equal, la, lb), vars, m) == Some((bool_i32(a == b), m))
            &&& eval(Expression::BinOp(BinaryOp::Unequal, la, lb), vars, m) == Some((bool_i32(a != b), m))
        }),
{
    reveal_with_fuel(eval, 2);
    lemma_wrap_is_modular(a + b);
    lemma_wrap_is_modular(a - b);
    lemma_wrap_is_modular(a * b);
    if !(b == 0 || (a == i32::MIN && b == -1)) {
        lemma_trunc_div(a as int, b as int);
    }
}

proof fn lemma_trunc_div(a: int, b: int)
    requires
        b != 0,
        i32::MIN <= a <= i32::MAX,
        i32::MIN <= b <= i32::MAX,
        !(a == i32::MIN && b == -1),
    ensures
        i32::MIN <= trunc_div(a, b) <= i32::MAX,
        ({
            let r = a - trunc_div(a, b) * b;
            &&& (if r < 0 { -r } else { r }) < (if b < 0 { -b } else { b })
            &&& (r == 0 || (r < 0) == (a < 0))
        }),
{
    let q = trunc_div(a, b);
    if a >= 0 && b > 0 {
        vstd::arithmetic::div_mod::lemma_fundamental_div_mod(a, b);
        assert(0 <= a % b < b) by {
            vstd::arithmetic::div_mod::lemma_mod_bound(a, b);
        }
        assert(0 <= a / b <= a) by (nonlinear_arith)
            requires a >= 0, b > 0;
    } else if a < 0 && b > 0 {
        vstd::arithmetic::div_mod::lemma_fundamental_div_mod(-a, b);
        vstd::arithmetic::div_mod::lemma_mod_bound(-a, b);
        assert(0 <= (-a) / b <= -a) by (nonlinear_arith)
            requires -a >= 0, b > 0;
        assert(a - q * b == -((-a) % b)) by (nonlinear_arith)
            requires q == -((-a) / b), -a == b * ((-a) / b) + (-a) % b;
    } else if a >= 0 && b < 0 {
        vstd::arithmetic::div_mod::lemma_fundamental_div_mod(a, -b);
        vstd::arithmetic::div_mod::lemma_mod_bound(a, -b);
        assert(0 <= a / (-b) <= a) by (nonlinear_arith)
            requires a >= 0, -b > 0;
        assert(a - q * b == a % (-b)) by (nonlinear_arith)
            requires q == -(a / (-b)), a == (-b) * (a / (-b)) + a % (-b);
    } else {
        vstd::arithmetic::div_mod::lemma_fundamental_div_mod(-a, -b);
        vstd::arithmetic::div_mod::lemma_mod_bound(-a, -b);
        assert(0 <= (-a) / (-b) <= -a) by (nonlinear_arith)
            requires -a >= 0, -b > 0;
        assert((-a) / (-b) <= 0x7fff_ffff) by (nonlinear_arith)
            requires -a <= 0x8000_0000, -b >= 2 || (-b == 1 && -a <= 0x7fff_ffff), -b > 0,
                0 <= (-a) / (-b) <= -a;
        assert(a - q * b == -((-a) % (-b))) by (nonlinear_arith)
            requires q == (-a) / (-b), -a == (-b) * ((-a) / (-b)) + (-a) % (-b);
    }
}

/// Unary and logical operations on integer literals mean what they mean in C: `-` gives the
/// negation modulo 2^32, `~` flips every bit (`~a == -a - 1`), `!` gives 1 exactly for 0;
/// `a && b` gives 1 exactly when both are nonzero, `a || b` when either is; and `&&`, `||`
/// short-circuit: a first operand that settles the result leaves the second one, whatever
/// it is, unevaluated.
pub proof fn lemma_unary_and_logical_meaning(
    a: i32,
    b: i32,
    e: Expression,
    vars: Seq<(Seq<char>, i32)>,
    m: spec_fn(int) -> i32,
)
    ensures
        bool_i32(true) == 1 && bool_i32(false) == 0,
        a != 0 ==> eval(Expression::LogOp(LogicalOp::Or, Box::new(Expression::LiteralInt(a)), Box::new(e)), vars, m)
            == Some((1i32, m)),
        a == 0 ==> eval(Expression::LogOp(LogicalOp::And, Box::new(Expression::LiteralInt(a)), Box::new(e)), vars, m)
            == Some((0i32, m)),
        ({
            let la = Box::new(Expression::LiteralInt(a));
            let lb = Box::new(Expression::LiteralInt(b));
            &&& eval(Expression::UnOp(UnaryOp::Negate, la), vars, m) matches Some((v, _))
                && same_mod_2_32(v as int, -a)
            &&& eval(Expression::UnOp(UnaryOp::BitwiseNot, la), vars, m) == Some(((-a - 1) as i32, m))
            &&& eval(Expression::UnOp(UnaryOp::LogicalNot, la), vars, m) == Some((bool_i32(a == 0), m))
            &&& eval(Expression::LogOp(LogicalOp::And, la, lb), vars, m) == Some((bool_i32(a != 0 && b != 0), m))
            &&& eval(Expression::LogOp(LogicalOp::Or, la, lb), vars, m) == Some((bool_i32(a != 0 || b != 0), m))
        }),
{
    reveal_with_fuel(eval, 2);
    lemma_wrap_is_modular(-a);
}


/// A variable stands for the stack slot of its own declaration. With declared names all
/// different, reading the `k`-th declared variable gives what its slot holds, and assigning
/// `v` to it gives `v` and puts `v` in that slot only; a name that no declaration has is an
/// error.
pub proof fn lemma_variable_meaning(
    vars: Seq<(Seq<char>, i32)>,
    k: int,
    name: String,
    v: i32,
    m: spec_fn(int) -> i32,
)
    requires
        0 <= k < vars.len(),
        forall|i: int, j: int| 0 <= i < j < vars.len() ==> (#[trigger] vars[i]).0 != (#[trigger] vars[j]).0,
    ensures
        name@ == vars[k].0 ==> eval(Expression::Var(name), vars, m) == Some((m(vars[k].1 as int), m)),
        name@ == vars[k].0 ==> (eval(
            Expression::Assign(name, Box::new(Expression::LiteralInt(v))),
            vars,
            m,
        ) matches Some((r, m2)) && r == v && m2(vars[k].1 as int) == v && forall|off: int|
            off != vars[k].1 ==> #[trigger] m2(off) == m(off)),
        (forall|i: int| 0 <= i < vars.len() ==> (#[trigger] vars[i]).0 != name@) ==> eval(
            Expression::Var(name),
            vars,
            m,
        ) is None,
{
    reveal_with_fuel(eval, 2);
    lemma_lookup_distinct_names(vars, k);
    lemma_lookup_by_name(vars, name@);
}

} // verus!
