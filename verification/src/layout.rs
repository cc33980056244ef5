use vstd::prelude::*;
use crate::ast::{BlockItem, Expression, Function, Statement};
use crate::generator::{
    GenState, Instr, binop_code, expr_code, function_asm, functions_asm, item_code, items_code,
    logop_head, logop_tail, lookup, unop_code,
};
use crate::semantics::{Label, label_of};

verus! {

// ---------------------------------------------------------------------------------------------
// The numbers of the labels
// ---------------------------------------------------------------------------------------------

/// The labels that `c` places are numbered from `lo` up to, not including, `hi`.
pub open spec fn labels_within(c: Seq<Instr>, lo: int, hi: int) -> bool {
    forall|k: int|
        0 <= k < c.len() ==> match label_of(#[trigger] c[k]) {
            Some(Label::Clause(n)) => lo <= n < hi,
            Some(Label::End(n)) => lo <= n < hi,
            None => true,
        }
}

proof fn lemma_labels_within_append(a: Seq<Instr>, b: Seq<Instr>, lo: int, hi: int)
    requires
        labels_within(a, lo, hi),
        labels_within(b, lo, hi),
    ensures
        labels_within(a + b, lo, hi),
{
    assert forall|k: int| 0 <= k < (a + b).len() implies match label_of(#[trigger] (a + b)[k]) {
        Some(Label::Clause(n)) => lo <= n < hi,
        Some(Label::End(n)) => lo <= n < hi,
        None => true,
    } by {
        if k < a.len() {
            assert((a + b)[k] == a[k]);
        } else {
            assert((a + b)[k] == b[k - a.len()]);
        }
    }
}

/// The labels of an expression's code are numbered from the jump counter before it up to the
/// jump counter after it.
pub proof fn lemma_expr_code_labels(e: Expression, jc: i32, vars: Seq<(Seq<char>, i32)>)
    requires
        expr_code(e, jc, vars) is Ok,
    ensures
        jc <= expr_code(e, jc, vars)->Ok_0.1,
        labels_within(expr_code(e, jc, vars)->Ok_0.0, jc as int, expr_code(e, jc, vars)->Ok_0.1 as int),
    decreases e,
{
    let (c, j) = expr_code(e, jc, vars)->Ok_0;
    match e {
        Expression::LiteralInt(v) => {},
        Expression::Var(name) => {},
        Expression::UnOp(op, x) => {
            lemma_expr_code_labels(*x, jc, vars);
            let (cx, jx) = expr_code(*x, jc, vars)->Ok_0;
            assert(labels_within(unop_code(op), jc as int, j as int));
            lemma_labels_within_append(cx, unop_code(op), jc as int, j as int);
        },
        Expression::Assign(name, x) => {
            lemma_expr_code_labels(*x, jc, vars);
            let (cx, jx) = expr_code(*x, jc, vars)->Ok_0;
            let off = lookup(vars, name@)->Some_0;
            assert(labels_within(seq![Instr::Store(off)], jc as int, j as int));
            lemma_labels_within_append(cx, seq![Instr::Store(off)], jc as int, j as int);
        },
        Expression::BinOp(op, a, b) => {
            lemma_expr_code_labels(*a, jc, vars);
            let (ca, j1) = expr_code(*a, jc, vars)->Ok_0;
            lemma_expr_code_labels(*b, j1, vars);
            let (cb, j2) = expr_code(*b, j1, vars)->Ok_0;
            let lo = jc as int;
            let hi = j2 as int;
            assert(labels_within(seq![Instr::PushRax], lo, hi));
            assert(labels_within(seq![Instr::PopRcx], lo, hi));
            assert(labels_within(binop_code(op), lo, hi));
            lemma_labels_within_append(ca, seq![Instr::PushRax], lo, hi);
            lemma_labels_within_append(ca + seq![Instr::PushRax], cb, lo, hi);
            lemma_labels_within_append(ca + seq![Instr::PushRax] + cb, seq![Instr::PopRcx], lo, hi);
            lemma_labels_within_append(
                ca + seq![Instr::PushRax] + cb + seq![Instr::PopRcx],
                binop_code(op),
                lo,
                hi,
            );
        },
        Expression::LogOp(op, a, b) => {
            lemma_expr_code_labels(*a, jc, vars);
            let (ca, j1) = expr_code(*a, jc, vars)->Ok_0;
            lemma_expr_code_labels(*b, (j1 + 1) as i32, vars);
            let (cb, j2) = expr_code(*b, (j1 + 1) as i32, vars)->Ok_0;
            let lo = jc as int;
            let hi = j2 as int;
            assert(labels_within(logop_head(op, j1), lo, hi));
            assert(labels_within(logop_tail(j1), lo, hi));
            lemma_labels_within_append(ca, logop_head(op, j1), lo, hi);
            lemma_labels_within_append(ca + logop_head(op, j1), cb, lo, hi);
            lemma_labels_within_append(ca + logop_head(op, j1) + cb, logop_tail(j1), lo, hi);
        },
    }
}



/// No label is placed twice in `c`.
pub open spec fn labels_distinct(c: Seq<Instr>) -> bool {
    forall|k1: int, k2: int|
        0 <= k1 < c.len() && 0 <= k2 < c.len() && k1 != k2 && label_of(c[k1]) is Some
            ==> #[trigger] label_of(c[k1]) != #[trigger] label_of(c[k2])
}

/// No label that `a` places is placed by `b`.
pub open spec fn labels_apart(a: Seq<Instr>, b: Seq<Instr>) -> bool {
    forall|k1: int, k2: int|
        0 <= k1 < a.len() && 0 <= k2 < b.len() && label_of(a[k1]) is Some
            ==> #[trigger] label_of(a[k1]) != #[trigger] label_of(b[k2])
}

/// `c` places no label.
pub open spec fn no_labels(c: Seq<Instr>) -> bool {
    forall|k: int| 0 <= k < c.len() ==> label_of(#[trigger] c[k]) is None
}

proof fn lemma_labels_apart_by_range(a: Seq<Instr>, b: Seq<Instr>, lo1: int, hi1: int, lo2: int, hi2: int)
    requires
        labels_within(a, lo1, hi1),
        labels_within(b, lo2, hi2),
        hi1 <= lo2 || hi2 <= lo1,
    ensures
        labels_apart(a, b),
{
    assert forall|k1: int, k2: int|
        0 <= k1 < a.len() && 0 <= k2 < b.len() && label_of(a[k1]) is Some implies #[trigger] label_of(
            a[k1],
        ) != #[trigger] label_of(b[k2]) by {
        let x = a[k1];
        let y = b[k2];
        assert(match label_of(x) {
            Some(Label::Clause(n)) => lo1 <= n < hi1,
            Some(Label::End(n)) => lo1 <= n < hi1,
            None => true,
        });
        assert(match label_of(y) {
            Some(Label::Clause(n)) => lo2 <= n < hi2,
            Some(Label::End(n)) => lo2 <= n < hi2,
            None => true,
        });
    }
}

proof fn lemma_labels_apart_none(a: Seq<Instr>, b: Seq<Instr>)
    requires
        no_labels(a) || no_labels(b),
    ensures
        labels_apart(a, b),
{
    assert forall|k1: int, k2: int|
        0 <= k1 < a.len() && 0 <= k2 < b.len() && label_of(a[k1]) is Some implies #[trigger] label_of(
            a[k1],
        ) != #[trigger] label_of(b[k2]) by {
        let x = a[k1];
        let y = b[k2];
        if no_labels(a) {
            assert(label_of(x) is None);
        } else {
            assert(label_of(y) is None);
        }
    }
}

proof fn lemma_labels_apart_concat(a: Seq<Instr>, b: Seq<Instr>, c: Seq<Instr>)
    requires
        labels_apart(a, c),
        labels_apart(b, c),
    ensures
        labels_apart(a + b, c),
{
    assert forall|k1: int, k2: int|
        0 <= k1 < (a + b).len() && 0 <= k2 < c.len() && label_of((a + b)[k1]) is Some implies #[trigger] label_of(
            (a + b)[k1],
        ) != #[trigger] label_of(c[k2]) by {
        if k1 < a.len() {
            assert((a + b)[k1] == a[k1]);
            assert(label_of(a[k1]) != label_of(c[k2]));
        } else {
            assert((a + b)[k1] == b[k1 - a.len()]);
            assert(label_of(b[k1 - a.len()]) != label_of(c[k2]));
        }
    }
}

proof fn lemma_labels_distinct_append(a: Seq<Instr>, b: Seq<Instr>)
    requires
        labels_distinct(a),
        labels_distinct(b),
        labels_apart(a, b),
    ensures
        labels_distinct(a + b),
{
    let ab = a + b;
    assert forall|k1: int, k2: int|
        0 <= k1 < ab.len() && 0 <= k2 < ab.len() && k1 != k2 && label_of(ab[k1]) is Some implies #[trigger] label_of(
            ab[k1],
        ) != #[trigger] label_of(ab[k2]) by {
        if k1 < a.len() && k2 < a.len() {
            assert(ab[k1] == a[k1] && ab[k2] == a[k2]);
            assert(label_of(a[k1]) != label_of(a[k2]));
        } else if k1 < a.len() {
            assert(ab[k1] == a[k1] && ab[k2] == b[k2 - a.len()]);
            assert(label_of(a[k1]) != label_of(b[k2 - a.len()]));
        } else if k2 < a.len() {
            assert(ab[k1] == b[k1 - a.len()] && ab[k2] == a[k2]);
            if label_of(a[k2]) is Some {
                assert(label_of(a[k2]) != label_of(b[k1 - a.len()]));
            }
        } else {
            assert(ab[k1] == b[k1 - a.len()] && ab[k2] == b[k2 - a.len()]);
            assert(label_of(b[k1 - a.len()]) != label_of(b[k2 - a.len()]));
        }
    }
}

/// No label is placed twice in the code of an expression: each logical operation places its
/// clause label and its end label once, under a number of its own.
#[verifier::spinoff_prover]
pub proof fn lemma_expr_code_labels_distinct(e: Expression, jc: i32, vars: Seq<(Seq<char>, i32)>)
    requires
        expr_code(e, jc, vars) is Ok,
    ensures
        labels_distinct(expr_code(e, jc, vars)->Ok_0.0),
    decreases e,
{
    lemma_expr_code_labels(e, jc, vars);
    let (c, j) = expr_code(e, jc, vars)->Ok_0;
    match e {
        Expression::LiteralInt(v) => {},
        Expression::Var(name) => {},
        Expression::UnOp(op, x) => {
            lemma_expr_code_labels_distinct(*x, jc, vars);
            let (cx, jx) = expr_code(*x, jc, vars)->Ok_0;
            assert(no_labels(unop_code(op)));
            lemma_labels_apart_none(cx, unop_code(op));
            lemma_labels_distinct_append(cx, unop_code(op));
        },
        Expression::Assign(name, x) => {
            lemma_expr_code_labels_distinct(*x, jc, vars);
            let (cx, jx) = expr_code(*x, jc, vars)->Ok_0;
            let off = lookup(vars, name@)->Some_0;
            assert(no_labels(seq![Instr::Store(off)]));
            lemma_labels_apart_none(cx, seq![Instr::Store(off)]);
            lemma_labels_distinct_append(cx, seq![Instr::Store(off)]);
        },
        Expression::BinOp(op, a, b) => {
            lemma_expr_code_labels(*a, jc, vars);
            lemma_expr_code_labels_distinct(*a, jc, vars);
            let (ca, j1) = expr_code(*a, jc, vars)->Ok_0;
            lemma_expr_code_labels(*b, j1, vars);
            lemma_expr_code_labels_distinct(*b, j1, vars);
            let (cb, j2) = expr_code(*b, j1, vars)->Ok_0;
            let push = seq![Instr::PushRax];
            let pop = seq![Instr::PopRcx];
            assert(no_labels(push));
            assert(no_labels(pop));
            assert(no_labels(binop_code(op)));
            lemma_labels_apart_none(ca, push);
            lemma_labels_distinct_append(ca, push);
            lemma_labels_within_append(ca, push, jc as int, j1 as int);
            lemma_labels_apart_by_range(ca + push, cb, jc as int, j1 as int, j1 as int, j2 as int);
            lemma_labels_distinct_append(ca + push, cb);
            lemma_labels_apart_none(ca + push + cb, pop);
            lemma_labels_distinct_append(ca + push + cb, pop);
            lemma_labels_apart_none(ca + push + cb + pop, binop_code(op));
            lemma_labels_distinct_append(ca + push + cb + pop, binop_code(op));
        },
        Expression::LogOp(op, a, b) => {
            lemma_expr_code_labels(*a, jc, vars);
            lemma_expr_code_labels_distinct(*a, jc, vars);
            let (ca, j1) = expr_code(*a, jc, vars)->Ok_0;
            let n = j1 as int;
            lemma_expr_code_labels(*b, (j1 + 1) as i32, vars);
            lemma_expr_code_labels_distinct(*b, (j1 + 1) as i32, vars);
            let (cb, j2) = expr_code(*b, (j1 + 1) as i32, vars)->Ok_0;
            let head = logop_head(op, j1);
            let tail = logop_tail(j1);
            assert(labels_within(head, n, n + 1));
            assert(labels_within(tail, n, n + 1));
            assert(labels_distinct(head));
            assert(labels_distinct(tail));
            assert(labels_apart(head, tail));
            lemma_labels_apart_by_range(ca, head, jc as int, n, n, n + 1);
            lemma_labels_distinct_append(ca, head);
            lemma_labels_apart_by_range(ca, cb, jc as int, n, n + 1, j2 as int);
            lemma_labels_apart_by_range(head, cb, n, n + 1, n + 1, j2 as int);
            lemma_labels_apart_concat(ca, head, cb);
            lemma_labels_distinct_append(ca + head, cb);
            lemma_labels_apart_by_range(ca, tail, jc as int, n, n, n + 1);
            lemma_labels_apart_by_range(cb, tail, n + 1, j2 as int, n, n + 1);
            lemma_labels_apart_concat(ca, head, tail);
            lemma_labels_apart_concat(ca + head, cb, tail);
            lemma_labels_distinct_append(ca + head + cb, tail);
        },
    }
}


/// `c` places the label `l`.
pub open spec fn places(c: Seq<Instr>, l: Label) -> bool {
    exists|k: int| 0 <= k < c.len() && label_of(#[trigger] c[k]) == Some(l)
}

/// Every number from `lo` up to, not including, `hi` names a clause label and an end label
/// that `c` places.
pub open spec fn labels_cover(c: Seq<Instr>, lo: int, hi: int) -> bool {
    forall|n: i32| lo <= n < hi ==> #[trigger] places(c, Label::Clause(n)) && places(c, Label::End(n))
}

proof fn lemma_places_append(a: Seq<Instr>, b: Seq<Instr>, l: Label)
    ensures
        places(a, l) ==> places(a + b, l),
        places(b, l) ==> places(a + b, l),
{
    if places(a, l) {
        let k = choose|k: int| 0 <= k < a.len() && label_of(#[trigger] a[k]) == Some(l);
        assert((a + b)[k] == a[k]);
    }
    if places(b, l) {
        let k = choose|k: int| 0 <= k < b.len() && label_of(#[trigger] b[k]) == Some(l);
        assert((a + b)[k + a.len()] == b[k]);
    }
}

proof fn lemma_labels_cover_append(a: Seq<Instr>, b: Seq<Instr>, lo: int, hi: int)
    requires
        labels_cover(a, lo, hi) || labels_cover(b, lo, hi),
    ensures
        labels_cover(a + b, lo, hi),
{
    assert forall|n: i32| lo <= n < hi implies #[trigger] places(a + b, Label::Clause(n)) && places(
        a + b,
        Label::End(n),
    ) by {
        lemma_places_append(a, b, Label::Clause(n));
        lemma_places_append(a, b, Label::End(n));
        if labels_cover(a, lo, hi) {
            assert(places(a, Label::Clause(n)));
        } else {
            assert(places(b, Label::Clause(n)));
        }
    }
}

proof fn lemma_labels_cover_join(c: Seq<Instr>, lo: int, mid: int, hi: int)
    requires
        labels_cover(c, lo, mid),
        labels_cover(c, mid, hi),
    ensures
        labels_cover(c, lo, hi),
{
    assert forall|n: i32| lo <= n < hi implies #[trigger] places(c, Label::Clause(n)) && places(
        c,
        Label::End(n),
    ) by {
        if n < mid {
            assert(places(c, Label::Clause(n)));
        } else {
            assert(places(c, Label::Clause(n)));
        }
    }
}

/// Every number that the code of an expression raises the jump counter past is used: the
/// code places the clause label and the end label of each number from the jump counter before
/// it up to the jump counter after it (and, by `lemma_expr_code_labels_distinct`, each of them
/// once).
#[verifier::spinoff_prover]
pub proof fn lemma_expr_code_labels_cover(e: Expression, jc: i32, vars: Seq<(Seq<char>, i32)>)
    requires
        expr_code(e, jc, vars) is Ok,
    ensures
        labels_cover(expr_code(e, jc, vars)->Ok_0.0, jc as int, expr_code(e, jc, vars)->Ok_0.1 as int),
    decreases e,
{
    let (c, j) = expr_code(e, jc, vars)->Ok_0;
    match e {
        Expression::LiteralInt(_) => {},
        Expression::Var(_) => {},
        Expression::UnOp(op, x) => {
            lemma_expr_code_labels_cover(*x, jc, vars);
            let (cx, jx) = expr_code(*x, jc, vars)->Ok_0;
            lemma_labels_cover_append(cx, unop_code(op), jc as int, j as int);
        },
        Expression::Assign(name, x) => {
            lemma_expr_code_labels_cover(*x, jc, vars);
            let (cx, jx) = expr_code(*x, jc, vars)->Ok_0;
            let off = lookup(vars, name@)->Some_0;
            lemma_labels_cover_append(cx, seq![Instr::Store(off)], jc as int, j as int);
        },
        Expression::BinOp(op, a, b) => {
            lemma_expr_code_labels_cover(*a, jc, vars);
            let (ca, j1) = expr_code(*a, jc, vars)->Ok_0;
            lemma_expr_code_labels_cover(*b, j1, vars);
            lemma_expr_code_labels(*b, j1, vars);
            let (cb, j2) = expr_code(*b, j1, vars)->Ok_0;
            let push = seq![Instr::PushRax];
            let pop = seq![Instr::PopRcx];
            lemma_labels_cover_append(ca, push, jc as int, j1 as int);
            lemma_labels_cover_append(ca + push, cb, jc as int, j1 as int);
            lemma_labels_cover_append(ca + push + cb, pop, jc as int, j1 as int);
            lemma_labels_cover_append(ca + push + cb + pop, binop_code(op), jc as int, j1 as int);
            lemma_labels_cover_append(ca + push, cb, j1 as int, j2 as int);
            lemma_labels_cover_append(ca + push + cb, pop, j1 as int, j2 as int);
            lemma_labels_cover_append(ca + push + cb + pop, binop_code(op), j1 as int, j2 as int);
            lemma_labels_cover_join(c, jc as int, j1 as int, j2 as int);
        },
        Expression::LogOp(op, a, b) => {
            lemma_expr_code_labels_cover(*a, jc, vars);
            lemma_expr_code_labels(*a, jc, vars);
            let (ca, j1) = expr_code(*a, jc, vars)->Ok_0;
            let n = j1 as int;
            lemma_expr_code_labels_cover(*b, (j1 + 1) as i32, vars);
            lemma_expr_code_labels(*b, (j1 + 1) as i32, vars);
            let (cb, j2) = expr_code(*b, (j1 + 1) as i32, vars)->Ok_0;
            let head = logop_head(op, j1);
            let tail = logop_tail(j1);
            lemma_labels_cover_append(ca, head, jc as int, n);
            lemma_labels_cover_append(ca + head, cb, jc as int, n);
            lemma_labels_cover_append(ca + head + cb, tail, jc as int, n);
            assert(head[6] == Instr::ClauseLabel(j1));
            assert(places(head, Label::Clause(j1)));
            assert(tail[3] == Instr::EndLabel(j1));
            assert(places(tail, Label::End(j1)));
            lemma_places_append(ca, head, Label::Clause(j1));
            lemma_places_append(ca + head, cb, Label::Clause(j1));
            lemma_places_append(ca + head + cb, tail, Label::Clause(j1));
            lemma_places_append(ca + head + cb, tail, Label::End(j1));
            assert(labels_cover(c, n, n + 1)) by {
                assert forall|m: i32| n <= m < n + 1 implies #[trigger] places(c, Label::Clause(m))
                    && places(c, Label::End(m)) by {
                    assert(m == j1);
                }
            }
            lemma_labels_cover_append(ca + head, cb, n + 1, j2 as int);
            lemma_labels_cover_append(ca + head + cb, tail, n + 1, j2 as int);
            lemma_labels_cover_join(c, jc as int, n, n + 1);
            lemma_labels_cover_join(c, jc as int, n + 1, j2 as int);
        },
    }
}

/// The labels of a block item's code lie between the jump counters before and after it, and
/// none is placed twice.
proof fn lemma_item_code_labels(item: BlockItem, st: GenState)
    requires
        item_code(item, st) is Ok,
    ensures
        st.jc <= item_code(item, st)->Ok_0.1.jc,
        labels_within(item_code(item, st)->Ok_0.0, st.jc as int, item_code(item, st)->Ok_0.1.jc as int),
        labels_distinct(item_code(item, st)->Ok_0.0),
{
    match item {
        BlockItem::Stmt(Statement::Ret(x)) => {
            lemma_expr_code_labels(x, st.jc, st.vars);
            lemma_expr_code_labels_distinct(x, st.jc, st.vars);
        },
        BlockItem::Stmt(Statement::Expr(x)) => {
            lemma_expr_code_labels(x, st.jc, st.vars);
            lemma_expr_code_labels_distinct(x, st.jc, st.vars);
        },
        BlockItem::Stmt(Statement::Cond(_, _, _)) => {},
        BlockItem::Decl(var, init) => {
            let push = seq![Instr::PushRax];
            assert(no_labels(push));
            match init {
                Some(x) => {
                    lemma_expr_code_labels(x, st.jc, st.vars);
                    lemma_expr_code_labels_distinct(x, st.jc, st.vars);
                    let (c, j) = expr_code(x, st.jc, st.vars)->Ok_0;
                    lemma_labels_apart_none(c, push);
                    lemma_labels_distinct_append(c, push);
                    lemma_labels_within_append(c, push, st.jc as int, j as int);
                },
                None => {
                    assert(no_labels(seq![Instr::MovImm(0), Instr::PushRax]));
                },
            }
        },
    }
}

/// The labels of a function body's code are numbered from the jump counter before it up to the
/// jump counter after it, and none is placed twice. The functions of a program take the jump
/// counter in turn, so the labels of two functions never meet either.
pub proof fn lemma_items_code_labels(items: Seq<BlockItem>, st: GenState)
    requires
        items_code(items, st) is Ok,
    ensures
        st.jc <= items_code(items, st)->Ok_0.1.jc,
        labels_within(items_code(items, st)->Ok_0.0, st.jc as int, items_code(items, st)->Ok_0.1.jc as int),
        labels_distinct(items_code(items, st)->Ok_0.0),
    decreases items.len(),
{
    if items.len() > 0 {
        lemma_item_code_labels(items[0], st);
        let (c, st1) = item_code(items[0], st)->Ok_0;
        lemma_items_code_labels(items.drop_first(), st1);
        let (rest, st2) = items_code(items.drop_first(), st1)->Ok_0;
        lemma_labels_apart_by_range(c, rest, st.jc as int, st1.jc as int, st1.jc as int, st2.jc as int);
        lemma_labels_distinct_append(c, rest);
        assert(labels_within(c, st.jc as int, st2.jc as int));
        assert(labels_within(rest, st.jc as int, st2.jc as int));
        lemma_labels_within_append(c, rest, st.jc as int, st2.jc as int);
    }
}


/// The jump counter and stack index with which the function at index `i` of `fs` is generated,
/// when the generation of the functions starts from `jc` and `si`.
pub open spec fn start_counters(fs: Seq<Function>, jc: i32, si: i32, i: int) -> (i32, i32)
    decreases fs.len(),
{
    if i <= 0 || fs.len() == 0 {
        (jc, si)
    } else {
        match function_asm(fs[0], jc, si) {
            Ok((_, j, s)) => start_counters(fs.drop_first(), j, s, i - 1),
            Err(_) => (jc, si),
        }
    }
}

/// The code of the body of the function at index `i` of `fs`, as the generation of the
/// functions from `jc` and `si` gives it.
pub open spec fn body_code_at(fs: Seq<Function>, jc: i32, si: i32, i: int) -> Seq<Instr> {
    let (j, s) = start_counters(fs, jc, si, i);
    items_code(fs[i].child_block_items@, GenState { jc: j, vars: Seq::empty(), si: s })->Ok_0.0
}

proof fn lemma_function_labels_span(fs: Seq<Function>, jc: i32, si: i32, i: int)
    requires
        functions_asm(fs, jc, si) is Ok,
        0 <= i < fs.len(),
    ensures
        function_asm(fs[i], start_counters(fs, jc, si, i).0, start_counters(fs, jc, si, i).1) is Ok,
        jc <= start_counters(fs, jc, si, i).0 <= start_counters(fs, jc, si, i + 1).0,
        labels_within(
            body_code_at(fs, jc, si, i),
            start_counters(fs, jc, si, i).0 as int,
            start_counters(fs, jc, si, i + 1).0 as int,
        ),
        labels_distinct(body_code_at(fs, jc, si, i)),
    decreases fs.len(),
{
    let st = GenState { jc: jc, vars: Seq::empty(), si: si };
    lemma_items_code_labels(fs[0].child_block_items@, st);
    let (t, j1, s1) = function_asm(fs[0], jc, si)->Ok_0;
    let rest = fs.drop_first();
    if i == 0 {
        assert(start_counters(rest, j1, s1, 0) == (j1, s1));
    } else {
        lemma_function_labels_span(rest, j1, s1, i - 1);
        assert(rest[i - 1] == fs[i]);
        assert(start_counters(fs, jc, si, i) == start_counters(rest, j1, s1, i - 1));
        assert(start_counters(fs, jc, si, i + 1) == start_counters(rest, j1, s1, i));
        assert(body_code_at(fs, jc, si, i) == body_code_at(rest, j1, s1, i - 1));
    }
}

proof fn lemma_start_counters_rise(fs: Seq<Function>, jc: i32, si: i32, i: int, k: int)
    requires
        functions_asm(fs, jc, si) is Ok,
        0 <= i <= k <= fs.len(),
    ensures
        start_counters(fs, jc, si, i).0 <= start_counters(fs, jc, si, k).0,
    decreases k - i,
{
    if i < k {
        lemma_function_labels_span(fs, jc, si, i);
        lemma_start_counters_rise(fs, jc, si, i + 1, k);
    }
}

/// No label is placed twice in the code of a program: within the body of each function none is
/// placed twice, and the bodies of two different functions place none in common, since the
/// functions take the jump counter in turn.
pub proof fn lemma_program_labels_distinct(fs: Seq<Function>, jc: i32, si: i32, i: int, k: int)
    requires
        functions_asm(fs, jc, si) is Ok,
        0 <= i < fs.len(),
        0 <= k < fs.len(),
    ensures
        labels_distinct(body_code_at(fs, jc, si, i)),
        i != k ==> labels_apart(body_code_at(fs, jc, si, i), body_code_at(fs, jc, si, k)),
{
    lemma_function_labels_span(fs, jc, si, i);
    lemma_function_labels_span(fs, jc, si, k);
    if i < k {
        lemma_start_counters_rise(fs, jc, si, i + 1, k);
        lemma_labels_apart_by_range(
            body_code_at(fs, jc, si, i),
            body_code_at(fs, jc, si, k),
            start_counters(fs, jc, si, i).0 as int,
            start_counters(fs, jc, si, i + 1).0 as int,
            start_counters(fs, jc, si, k).0 as int,
            start_counters(fs, jc, si, k + 1).0 as int,
        );
    } else if k < i {
        lemma_start_counters_rise(fs, jc, si, k + 1, i);
        lemma_labels_apart_by_range(
            body_code_at(fs, jc, si, i),
            body_code_at(fs, jc, si, k),
            start_counters(fs, jc, si, i).0 as int,
            start_counters(fs, jc, si, i + 1).0 as int,
            start_counters(fs, jc, si, k).0 as int,
            start_counters(fs, jc, si, k + 1).0 as int,
        );
    }
}


/// The assembly text of the functions splits at each function: the text of the functions before
/// it, its own text, generated with the counters reached at it, and the text of the functions
/// after it.
pub proof fn lemma_functions_asm_split(fs: Seq<Function>, jc: i32, si: i32, k: int)
    requires
        functions_asm(fs, jc, si) is Ok,
        0 <= k < fs.len(),
    ensures
        functions_asm(fs.take(k), jc, si) is Ok,
        function_asm(fs[k], start_counters(fs, jc, si, k).0, start_counters(fs, jc, si, k).1) is Ok,
        functions_asm(
            fs.skip(k + 1),
            start_counters(fs, jc, si, k + 1).0,
            start_counters(fs, jc, si, k + 1).1,
        ) is Ok,
        functions_asm(fs, jc, si)->Ok_0.0 == functions_asm(fs.take(k), jc, si)->Ok_0.0
            + function_asm(fs[k], start_counters(fs, jc, si, k).0, start_counters(fs, jc, si, k).1)->Ok_0.0
            + functions_asm(
            fs.skip(k + 1),
            start_counters(fs, jc, si, k + 1).0,
            start_counters(fs, jc, si, k + 1).1,
        )->Ok_0.0,
    decreases k,
{
    let (t0, j1, s1) = function_asm(fs[0], jc, si)->Ok_0;
    let rest = fs.drop_first();
    if k == 0 {
        assert(fs.take(0) =~= Seq::<Function>::empty());
        assert(fs.skip(1) =~= rest);
        assert(start_counters(rest, j1, s1, 0) == (j1, s1));
        assert(functions_asm(fs, jc, si)->Ok_0.0 =~= Seq::<char>::empty() + t0 + functions_asm(
            rest,
            j1,
            s1,
        )->Ok_0.0);
    } else {
        lemma_functions_asm_split(rest, j1, s1, k - 1);
        assert(rest[k - 1] == fs[k]);
        assert(rest.skip(k) =~= fs.skip(k + 1));
        assert(fs.take(k)[0] == fs[0]);
        assert(fs.take(k).drop_first() =~= rest.take(k - 1));
        assert(start_counters(fs, jc, si, k) == start_counters(rest, j1, s1, k - 1));
        assert(start_counters(fs, jc, si, k + 1) == start_counters(rest, j1, s1, k));
        let before = functions_asm(rest.take(k - 1), j1, s1)->Ok_0.0;
        let mid = function_asm(fs[k], start_counters(fs, jc, si, k).0, start_counters(fs, jc, si, k).1)->Ok_0.0;
        let after = functions_asm(
            fs.skip(k + 1),
            start_counters(fs, jc, si, k + 1).0,
            start_counters(fs, jc, si, k + 1).1,
        )->Ok_0.0;
        assert(functions_asm(fs.take(k), jc, si)->Ok_0.0 == t0 + before);
        assert(t0 + (before + mid + after) =~= (t0 + before) + mid + after);
    }
}

// ---------------------------------------------------------------------------------------------
// How the counters advance
// ---------------------------------------------------------------------------------------------

/// The number of logical operations in an expression.
pub open spec fn logop_count(e: Expression) -> nat
    decreases e,
{
    match e {
        Expression::LiteralInt(_) => 0,
        Expression::Var(_) => 0,
        Expression::UnOp(_, x) => logop_count(*x),
        Expression::Assign(_, x) => logop_count(*x),
        Expression::BinOp(_, a, b) => logop_count(*a) + logop_count(*b),
        Expression::LogOp(_, a, b) => logop_count(*a) + 1 + logop_count(*b),
    }
}

/// Each logical operation of an expression takes one number of the jump counter, and nothing
/// else takes any: the code of an expression raises the jump counter by the number of its
/// logical operations.
pub proof fn lemma_expr_code_counts(e: Expression, jc: i32, vars: Seq<(Seq<char>, i32)>)
    requires
        expr_code(e, jc, vars) is Ok,
    ensures
        expr_code(e, jc, vars)->Ok_0.1 == jc + logop_count(e),
    decreases e,
{
    match e {
        Expression::LiteralInt(_) => {},
        Expression::Var(_) => {},
        Expression::UnOp(_, x) => lemma_expr_code_counts(*x, jc, vars),
        Expression::Assign(_, x) => lemma_expr_code_counts(*x, jc, vars),
        Expression::BinOp(_, a, b) => {
            lemma_expr_code_counts(*a, jc, vars);
            let j1 = expr_code(*a, jc, vars)->Ok_0.1;
            lemma_expr_code_counts(*b, j1, vars);
        },
        Expression::LogOp(_, a, b) => {
            lemma_expr_code_counts(*a, jc, vars);
            let j1 = expr_code(*a, jc, vars)->Ok_0.1;
            lemma_expr_code_counts(*b, (j1 + 1) as i32, vars);
        },
    }
}

/// The number of declarations among block items.
pub open spec fn decl_count(items: Seq<BlockItem>) -> nat
    decreases items.len(),
{
    if items.len() == 0 {
        0
    } else {
        (if items[0] is Decl {
            1nat
        } else {
            0nat
        }) + decl_count(items.drop_first())
    }
}

/// Each declaration of a function body takes the stack index as its variable's slot and lowers
/// it by 8 bytes: after the body the stack index is lower by 8 for each declaration, and the
/// variables are those before it followed by one for each declaration, the first at the stack
/// index before it.
pub proof fn lemma_items_code_stack(items: Seq<BlockItem>, st: GenState)
    requires
        items_code(items, st) is Ok,
    ensures
        items_code(items, st)->Ok_0.1.si == st.si - 8 * decl_count(items),
        items_code(items, st)->Ok_0.1.vars.len() == st.vars.len() + decl_count(items),
        items_code(items, st)->Ok_0.1.vars.take(st.vars.len() as int) == st.vars,
        decl_count(items) > 0 ==> items_code(items, st)->Ok_0.1.vars[st.vars.len() as int].1 == st.si,
    decreases items.len(),
{
    if items.len() > 0 {
        let (c, st1) = item_code(items[0], st)->Ok_0;
        lemma_items_code_stack(items.drop_first(), st1);
        let st2 = items_code(items.drop_first(), st1)->Ok_0.1;
        if items[0] is Decl {
            assert(st1.vars == st.vars.push(st1.vars.last()));
            assert(st2.vars.take(st1.vars.len() as int).take(st.vars.len() as int) =~= st2.vars.take(
                st.vars.len() as int,
            ));
            assert(st1.vars.take(st.vars.len() as int) =~= st.vars);
            assert(st2.vars[st.vars.len() as int] == st2.vars.take(st1.vars.len() as int)[st.vars.len() as int]);
        } else {
            assert(st1.si == st.si && st1.vars == st.vars);
        }
    } else {
        assert(st.vars.take(st.vars.len() as int) =~= st.vars);
    }
}

/// The labels of an expression's code are exactly those of the numbers that it takes from the
/// jump counter: the counter rises by the number of logical operations, and each number from
/// the counter before the code up to the counter after it names one clause label and one end
/// label, each placed once, and no other label is placed.
pub proof fn lemma_expr_code_label_numbers(e: Expression, jc: i32, vars: Seq<(Seq<char>, i32)>)
    requires
        expr_code(e, jc, vars) is Ok,
    ensures
        expr_code(e, jc, vars)->Ok_0.1 == jc + logop_count(e),
        labels_within(expr_code(e, jc, vars)->Ok_0.0, jc as int, expr_code(e, jc, vars)->Ok_0.1 as int),
        labels_cover(expr_code(e, jc, vars)->Ok_0.0, jc as int, expr_code(e, jc, vars)->Ok_0.1 as int),
        labels_distinct(expr_code(e, jc, vars)->Ok_0.0),
{
    lemma_expr_code_counts(e, jc, vars);
    lemma_expr_code_labels(e, jc, vars);
    lemma_expr_code_labels_cover(e, jc, vars);
    lemma_expr_code_labels_distinct(e, jc, vars);
}

} // verus!
