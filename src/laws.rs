use vstd::prelude::*;

use crate::evaluator::{
    drained, ends_operand, finished, flushed, is_binary, is_numeric, on_symbol, plan_of, pushed,
    reduced, scan, settled, start, step, Scan, StepModel,
};
use crate::symbol::{symbol_of, EvalError, Symbol};
use crate::text::{is_ascii_space, is_digit};

verus! {

/// The scan of `s` continued over the characters of `d`.
pub open spec fn run(s: Scan, d: Seq<char>) -> Scan
    decreases d.len(),
{
    if d.len() == 0 {
        s
    } else {
        step(run(s, d.drop_last()), d.last())
    }
}

/// The text of a number: an optional sign, then digits with at most one
/// point, ending with a digit.
pub open spec fn is_number_text(s: Seq<char>) -> bool {
    &&& s.len() > 0
    &&& is_numeric(s[0]) || s[0] == '+' || s[0] == '-'
    &&& forall|i: int| 1 <= i < s.len() ==> is_numeric(#[trigger] s[i])
    &&& count(s, '.') <= 1
    &&& is_digit(s.last())
}

/// Only ASCII whitespace.
pub open spec fn is_blank(s: Seq<char>) -> bool {
    forall|i: int| 0 <= i < s.len() ==> is_ascii_space(#[trigger] s[i])
}

pub proof fn lemma_scan_append(cs: Seq<char>, d: Seq<char>)
    ensures
        scan(cs + d) == run(scan(cs), d),
    decreases d.len(),
{
    if d.len() > 0 {
        assert((cs + d).drop_last() =~= cs + d.drop_last());
        lemma_scan_append(cs, d.drop_last());
    } else {
        assert(cs + d =~= cs);
    }
}

proof fn lemma_run_one(s: Scan, c: char)
    ensures
        run(s, seq![c]) == step(s, c),
{
    assert(seq![c].drop_last() =~= seq![]);
    assert(run(s, seq![c].drop_last()) == s);
}

proof fn lemma_run_failed(s: Scan, d: Seq<char>)
    requires
        s.err is Some,
    ensures
        run(s, d) == s,
    decreases d.len(),
{
    reveal(step);
    if d.len() > 0 {
        lemma_run_failed(s, d.drop_last());
    }
}

proof fn lemma_run_blank(s: Scan, d: Seq<char>)
    requires
        is_blank(d),
    ensures
        run(s, d) == s,
    decreases d.len(),
{
    reveal(step);
    if d.len() > 0 {
        lemma_run_blank(s, d.drop_last());
        assert(is_ascii_space(d[d.len() - 1]));
    }
}

/// Reading the text of a number only fills the number buffer.
proof fn lemma_run_number(s: Scan, d: Seq<char>)
    requires
        s.err is None,
        s.buf.len() == 0,
        d.len() > 0,
        is_numeric(d[0]) || ((d[0] == '+' || d[0] == '-') && !ends_operand(s.before)),
        forall|i: int| 1 <= i < d.len() ==> is_numeric(#[trigger] d[i]),
    ensures
        run(s, d) == (Scan { buf: d, before: d.last(), ..s }),
    decreases d.len(),
{
    reveal(step);
    if d.len() == 1 {
        assert(d.drop_last() =~= seq![]);
        assert(run(s, d.drop_last()) == s);
        assert(flushed(s) == s);
        assert(s.buf.push(d[0]) =~= d);
    } else {
        lemma_run_number(s, d.drop_last());
        assert(is_numeric(d[d.len() - 1]));
        assert(d.drop_last().push(d.last()) =~= d);
    }
}

/// A single binary operation `a op b` between two numbers, with any ASCII
/// whitespace around the operator, reads both numbers and applies the
/// operator once: its value is `a op b` on the two numbers.
pub proof fn law_binary_expression(
    a: Seq<char>,
    gap1: Seq<char>,
    op: char,
    gap2: Seq<char>,
    b: Seq<char>,
)
    requires
        is_number_text(a),
        is_number_text(b),
        is_blank(gap1),
        is_blank(gap2),
        op == '+' || op == '-' || op == '*' || op == '/',
    ensures
        plan_of(a + gap1 + seq![op] + gap2 + b).steps == seq![
            StepModel::Literal(a),
            StepModel::Literal(b),
            StepModel::Apply(symbol_of(op)->0),
        ],
        plan_of(a + gap1 + seq![op] + gap2 + b).end == None::<EvalError>,
{
    reveal(step);
    let sym = symbol_of(op)->0;
    assert(seq![] + a =~= a);
    lemma_scan_append(seq![], a);
    lemma_run_number(start(), a);
    let s1 = scan(a);
    lemma_scan_append(a, gap1);
    lemma_run_blank(s1, gap1);
    lemma_scan_append(a + gap1, seq![op]);
    lemma_run_one(s1, op);
    let f = flushed(s1);
    assert(f.steps =~= seq![StepModel::Literal(a)]);
    let s2 = scan(a + gap1 + seq![op]);
    assert(s2 == Scan { before: op, ..on_symbol(f, op, sym) });
    assert(s2.ops =~= seq![sym]);
    lemma_scan_append(a + gap1 + seq![op], gap2);
    lemma_run_blank(s2, gap2);
    lemma_scan_append(a + gap1 + seq![op] + gap2, b);
    lemma_run_number(s2, b);
    let s3 = scan(a + gap1 + seq![op] + gap2 + b);
    let g = flushed(s3);
    assert(g.steps =~= seq![StepModel::Literal(a), StepModel::Literal(b)]);
    let rest = Scan { ops: g.ops.drop_last(), ..g };
    assert(rest.ops =~= seq![]);
    let d = drained(g, false);
    assert(d == drained(reduced(rest, sym), false));
    assert(d.steps =~= seq![
        StepModel::Literal(a),
        StepModel::Literal(b),
        StepModel::Apply(sym),
    ]);
}

/// A number followed by `%` reads the number and divides it by one hundred,
/// nothing more.
pub proof fn law_percent(n: Seq<char>)
    requires
        is_number_text(n),
    ensures
        plan_of(n + seq!['%']).steps == seq![
            StepModel::Literal(n),
            StepModel::Apply(Symbol::Per),
        ],
        plan_of(n + seq!['%']).end == None::<EvalError>,
{
    reveal(step);
    assert(seq![] + n =~= n);
    lemma_scan_append(seq![], n);
    lemma_run_number(start(), n);
    lemma_scan_append(n, seq!['%']);
    lemma_run_one(scan(n), '%');
    let s = scan(n + seq!['%']);
    assert(s.steps =~= seq![StepModel::Literal(n), StepModel::Apply(Symbol::Per)]);
}

/// `t` is the state of `s` one parenthesis deeper: the same scan with an
/// extra `(` at the bottom of the operator stack.
pub open spec fn nested(s: Scan, t: Scan) -> bool {
    &&& s.err is None
    &&& t.err is None
    &&& t.ops == seq![Symbol::ParL] + s.ops
    &&& t.depth == s.depth
    &&& t.buf == s.buf
    &&& t.steps == s.steps
    &&& is_digit(t.before) == is_digit(s.before)
    &&& ends_operand(t.before) == ends_operand(s.before)
}

proof fn lemma_drained_buf(s: Scan, to_paren: bool)
    ensures
        drained(s, to_paren).buf == s.buf,
    decreases s.ops.len(),
{
    if s.err is None && s.ops.len() > 0 {
        let rest = Scan { ops: s.ops.drop_last(), ..s };
        lemma_drained_buf(reduced(rest, s.ops.last()), to_paren);
    }
}

proof fn lemma_nested_reduced(s: Scan, t: Scan, op: Symbol)
    requires
        nested(s, t),
        reduced(s, op).err is None,
    ensures
        nested(reduced(s, op), reduced(t, op)),
{
}

proof fn lemma_nested_drained(s: Scan, t: Scan)
    requires
        nested(s, t),
        drained(s, true).err is None,
    ensures
        nested(drained(s, true), drained(t, true)),
    decreases s.ops.len(),
{
    let top = s.ops.last();
    assert(t.ops.last() == top);
    let rs = Scan { ops: s.ops.drop_last(), ..s };
    let rt = Scan { ops: t.ops.drop_last(), ..t };
    assert(rt.ops =~= seq![Symbol::ParL] + rs.ops);
    if top != Symbol::ParL {
        if reduced(rs, top).err is Some {
            assert(drained(reduced(rs, top), true) == reduced(rs, top));
        } else {
            lemma_nested_reduced(rs, rt, top);
            lemma_nested_drained(reduced(rs, top), reduced(rt, top));
        }
    }
}

/// Draining everything inside a parenthesis drains the nested scan up to
/// its extra `(`, to the same state.
proof fn lemma_nested_closed(s: Scan, t: Scan)
    requires
        nested(s, t),
        drained(s, false).err is None,
    ensures
        drained(s, false).ops == Seq::<Symbol>::empty(),
        drained(t, true) == (Scan { before: t.before, ..drained(s, false) }),
    decreases s.ops.len(),
{
    if s.ops.len() == 0 {
        let rt = Scan { ops: t.ops.drop_last(), ..t };
        assert(rt.ops =~= s.ops);
    } else {
        let top = s.ops.last();
        assert(t.ops.last() == top);
        let rs = Scan { ops: s.ops.drop_last(), ..s };
        let rt = Scan { ops: t.ops.drop_last(), ..t };
        assert(rt.ops =~= seq![Symbol::ParL] + rs.ops);
        if reduced(rs, top).err is Some {
            assert(drained(reduced(rs, top), false) == reduced(rs, top));
        } else {
            assert(top != Symbol::ParL);
            lemma_nested_reduced(rs, rt, top);
            lemma_nested_closed(reduced(rs, top), reduced(rt, top));
        }
    }
}

proof fn lemma_nested_settled(s: Scan, t: Scan)
    requires
        nested(s, t),
        settled(s).err is None,
    ensures
        nested(settled(s), settled(t)),
    decreases s.ops.len(),
{
    if s.ops.len() == 0 {
        assert(t.ops.last() == Symbol::ParL);
    } else {
        let top = s.ops.last();
        assert(t.ops.last() == top);
        if top != Symbol::ParL {
            let rs = Scan { ops: s.ops.drop_last(), ..s };
            let rt = Scan { ops: t.ops.drop_last(), ..t };
            assert(rt.ops =~= seq![Symbol::ParL] + rs.ops);
            if reduced(rs, top).err is Some {
                assert(settled(reduced(rs, top)) == reduced(rs, top));
            } else {
                lemma_nested_reduced(rs, rt, top);
                lemma_nested_settled(reduced(rs, top), reduced(rt, top));
            }
        }
    }
}

proof fn lemma_nested_pushed(s: Scan, t: Scan, sym: Symbol)
    requires
        nested(s, t),
        pushed(s, sym).err is None,
    ensures
        nested(pushed(s, sym), pushed(t, sym)),
{
    let (p1, q1) = if sym == Symbol::Add || sym == Symbol::Sub {
        lemma_nested_settled(s, t);
        (settled(s), settled(t))
    } else {
        if s.ops.len() > 0 {
            assert(t.ops.last() == s.ops.last());
            if s.ops.last() == Symbol::Mul || s.ops.last() == Symbol::Div {
                let r = reduced(s, s.ops.last());
                let q = reduced(t, t.ops.last());
                assert(q.ops.drop_last() =~= seq![Symbol::ParL] + r.ops.drop_last());
            }
        } else {
            assert(t.ops.last() == Symbol::ParL);
        }
        (s, t)
    };
    let p = pushed(s, sym);
    let q = pushed(t, sym);
    assert(q.ops =~= seq![Symbol::ParL] + p.ops);
}

proof fn lemma_nested_step(s: Scan, t: Scan, c: char)
    requires
        nested(s, t),
        step(s, c).err is None,
    ensures
        nested(step(s, c), step(t, c)),
{
    reveal(step);
    if !is_numeric(c) && !is_ascii_space(c) {
        let fs = flushed(s);
        let ft = flushed(t);
        let sym = symbol_of(c)->0;
        if sym == Symbol::Per {
            lemma_nested_reduced(fs, ft, sym);
        } else if sym == Symbol::ParL && !is_digit(fs.before) {
            assert(seq![Symbol::ParL] + fs.ops.push(sym) =~= ft.ops.push(sym));
        } else if (sym == Symbol::Add || sym == Symbol::Sub) && !ends_operand(fs.before) {
        } else if sym == Symbol::ParR {
            lemma_nested_drained(fs, ft);
        } else {
            lemma_nested_pushed(fs, ft, sym);
        }
    }
}

proof fn lemma_nested_run(s: Scan, t: Scan, d: Seq<char>)
    requires
        nested(s, t),
        run(s, d).err is None,
    ensures
        nested(run(s, d), run(t, d)),
    decreases d.len(),
{
    reveal(step);
    if d.len() > 0 {
        if run(s, d.drop_last()).err is Some {
            assert(run(s, d) == run(s, d.drop_last()));
        }
        lemma_nested_run(s, t, d.drop_last());
        lemma_nested_step(run(s, d.drop_last()), run(t, d.drop_last()), d.last());
    }
}

/// Parentheses around an expression that evaluates without error change
/// nothing: the same steps, and the same value.
pub proof fn law_parenthesized(x: Seq<char>)
    requires
        plan_of(x).end is None,
    ensures
        plan_of(seq!['('] + x + seq![')']) == plan_of(x),
{
    reveal(step);
    assert(seq![] + x =~= x);
    assert(scan(seq![]) == start());
    lemma_scan_append(seq![], x);
    let sx = scan(x);
    if sx.err is Some {
        assert(finished(sx) == sx);
    }
    assert(sx.err is None);
    assert(seq![] + seq!['('] =~= seq!['(']);
    lemma_scan_append(seq![], seq!['(']);
    lemma_run_one(start(), '(');
    let open = scan(seq!['(']);
    assert(open.ops =~= seq![Symbol::ParL] + seq![]);
    assert(nested(start(), open));
    lemma_scan_append(seq!['('], x);
    lemma_nested_run(start(), open, x);
    let tx = scan(seq!['('] + x);
    assert(nested(sx, tx));
    lemma_scan_append(seq!['('] + x, seq![')']);
    lemma_run_one(tx, ')');
    let f = flushed(sx);
    let d = drained(f, false);
    assert(d.err is None);
    lemma_nested_closed(f, flushed(tx));
    let u = scan(seq!['('] + x + seq![')']);
    assert(u == step(tx, ')'));
    assert(u == Scan { before: ')', ..d });
    lemma_drained_buf(f, false);
    assert(flushed(u) == u);
    assert(drained(u, false) == u);
    assert(finished(u) == u);
}

/// How many times `c` occurs in `cs`.
pub open spec fn count(cs: Seq<char>, c: char) -> nat
    decreases cs.len(),
{
    if cs.len() == 0 {
        0
    } else {
        count(cs.drop_last(), c) + if cs.last() == c {
            1nat
        } else {
            0nat
        }
    }
}

/// How many `(` markers an operator stack holds.
pub open spec fn opens(ops: Seq<Symbol>) -> nat
    decreases ops.len(),
{
    if ops.len() == 0 {
        0
    } else {
        opens(ops.drop_last()) + if ops.last() == Symbol::ParL {
            1nat
        } else {
            0nat
        }
    }
}

/// A digit, a point, ASCII whitespace or an operator character.
pub open spec fn is_recognized(c: char) -> bool {
    is_numeric(c) || is_ascii_space(c) || symbol_of(c) is Some
}

/// No error, or a malformed expression.
pub open spec fn at_most_malformed(e: Option<EvalError>) -> bool {
    e is None || e == Some(EvalError::MalformedExpression)
}

proof fn lemma_opens_push(ops: Seq<Symbol>, x: Symbol)
    ensures
        opens(ops.push(x)) == opens(ops) + if x == Symbol::ParL {
            1nat
        } else {
            0nat
        },
{
    assert(ops.push(x).drop_last() =~= ops);
}

proof fn lemma_reduced_error(s: Scan, op: Symbol)
    requires
        s.err is None,
    ensures
        at_most_malformed(reduced(s, op).err),
        reduced(s, op).ops == s.ops,
{
}

proof fn lemma_drained_opens(s: Scan, to_paren: bool)
    requires
        s.err is None,
    ensures
        at_most_malformed(drained(s, to_paren).err),
        drained(s, to_paren).err is None ==> opens(drained(s, to_paren).ops) + (if to_paren {
            1nat
        } else {
            0nat
        }) == opens(s.ops),
        drained(s, to_paren).err is None && !to_paren ==> opens(s.ops) == 0,
    decreases s.ops.len(),
{
    if s.ops.len() > 0 {
        let top = s.ops.last();
        let rest = Scan { ops: s.ops.drop_last(), ..s };
        if !(to_paren && top == Symbol::ParL) {
            lemma_reduced_error(rest, top);
            if reduced(rest, top).err is None {
                lemma_drained_opens(reduced(rest, top), to_paren);
            }
        }
    }
}

proof fn lemma_settled_opens(s: Scan)
    requires
        s.err is None,
    ensures
        at_most_malformed(settled(s).err),
        settled(s).err is None ==> opens(settled(s).ops) == opens(s.ops),
    decreases s.ops.len(),
{
    if s.ops.len() > 0 && s.ops.last() != Symbol::ParL {
        let rest = Scan { ops: s.ops.drop_last(), ..s };
        lemma_reduced_error(rest, s.ops.last());
        if reduced(rest, s.ops.last()).err is None {
            lemma_settled_opens(reduced(rest, s.ops.last()));
        }
    }
}

proof fn lemma_step_opens(s: Scan, c: char)
    requires
        s.err is None,
        is_recognized(c),
    ensures
        at_most_malformed(step(s, c).err),
        step(s, c).err is None ==> opens(step(s, c).ops) + (if c == ')' {
            1int
        } else {
            0int
        }) == opens(s.ops) + (if c == '(' {
            1int
        } else {
            0int
        }),
{
    reveal(step);
    if !is_numeric(c) && !is_ascii_space(c) {
        let f = flushed(s);
        let sym = symbol_of(c)->0;
        if sym == Symbol::Per {
            lemma_reduced_error(f, sym);
        } else if sym == Symbol::ParL && !is_digit(f.before) {
            lemma_opens_push(f.ops, sym);
        } else if (sym == Symbol::Add || sym == Symbol::Sub) && !ends_operand(f.before) {
        } else if sym == Symbol::ParR {
            lemma_drained_opens(f, true);
        } else {
            let s1 = if sym == Symbol::Add || sym == Symbol::Sub {
                lemma_settled_opens(f);
                settled(f)
            } else if f.ops.len() > 0 && (f.ops.last() == Symbol::Mul || f.ops.last()
                == Symbol::Div) {
                let r = reduced(f, f.ops.last());
                lemma_reduced_error(f, f.ops.last());
                assert(r.ops.drop_last().push(r.ops.last()) =~= r.ops);
                lemma_opens_push(r.ops.drop_last(), r.ops.last());
                Scan { ops: r.ops.drop_last(), ..r }
            } else {
                f
            };
            if s1.err is None {
                let s2 = if sym == Symbol::ParL {
                    lemma_opens_push(s1.ops, Symbol::Mul);
                    Scan { ops: s1.ops.push(Symbol::Mul), ..s1 }
                } else {
                    s1
                };
                lemma_opens_push(s2.ops, sym);
            }
        }
    }
}

proof fn lemma_scan_opens(cs: Seq<char>)
    requires
        forall|i: int| 0 <= i < cs.len() ==> is_recognized(#[trigger] cs[i]),
    ensures
        at_most_malformed(scan(cs).err),
        scan(cs).err is None ==> opens(scan(cs).ops) == count(cs, '(') - count(cs, ')'),
    decreases cs.len(),
{
    reveal(step);
    if cs.len() > 0 {
        let p = cs.drop_last();
        assert(forall|i: int| 0 <= i < p.len() ==> #[trigger] p[i] == cs[i]);
        lemma_scan_opens(p);
        if scan(p).err is None {
            assert(is_recognized(cs[cs.len() - 1]));
            lemma_step_opens(scan(p), cs.last());
        }
    }
}

/// An expression of digits, points, whitespace and operator characters whose
/// counts of `(` and `)` differ is malformed.
pub proof fn law_unbalanced_parentheses(cs: Seq<char>)
    requires
        forall|i: int| 0 <= i < cs.len() ==> is_recognized(#[trigger] cs[i]),
        count(cs, '(') != count(cs, ')'),
    ensures
        plan_of(cs).end == Some(EvalError::MalformedExpression),
{
    lemma_scan_opens(cs);
    let s = scan(cs);
    if s.err is None {
        let f = flushed(s);
        lemma_drained_opens(f, false);
    }
}

/// How many operands running `steps` on an empty operand stack leaves, or
/// `None` where some step finds too few.
pub open spec fn operands_after(steps: Seq<StepModel>) -> Option<nat>
    decreases steps.len(),
{
    if steps.len() == 0 {
        Some(0)
    } else {
        match operands_after(steps.drop_last()) {
            None => None,
            Some(n) => match steps.last() {
                StepModel::Literal(_) => Some(n + 1),
                StepModel::Apply(op) => if op == Symbol::Per && n >= 1 {
                    Some(n)
                } else if is_binary(op) && n >= 2 {
                    Some((n - 1) as nat)
                } else {
                    None
                },
            },
        }
    }
}

/// The steps of `s` leave exactly its operand count.
pub open spec fn counted(s: Scan) -> bool {
    operands_after(s.steps) == Some(s.depth)
}

proof fn lemma_counted_push(steps: Seq<StepModel>, x: StepModel)
    ensures
        steps.push(x).drop_last() == steps,
        steps.push(x).last() == x,
{
    assert(steps.push(x).drop_last() =~= steps);
}

proof fn lemma_counted_flushed(s: Scan)
    requires
        counted(s),
    ensures
        counted(flushed(s)),
{
    lemma_counted_push(s.steps, StepModel::Literal(s.buf));
}

proof fn lemma_counted_reduced(s: Scan, op: Symbol)
    requires
        counted(s),
    ensures
        counted(reduced(s, op)),
{
    lemma_counted_push(s.steps, StepModel::Apply(op));
}

proof fn lemma_counted_drained(s: Scan, to_paren: bool)
    requires
        counted(s),
    ensures
        counted(drained(s, to_paren)),
    decreases s.ops.len(),
{
    if s.err is None && s.ops.len() > 0 {
        let rest = Scan { ops: s.ops.drop_last(), ..s };
        lemma_counted_reduced(rest, s.ops.last());
        lemma_counted_drained(reduced(rest, s.ops.last()), to_paren);
    }
}

proof fn lemma_counted_settled(s: Scan)
    requires
        counted(s),
    ensures
        counted(settled(s)),
    decreases s.ops.len(),
{
    if s.err is None && s.ops.len() > 0 && s.ops.last() != Symbol::ParL {
        let rest = Scan { ops: s.ops.drop_last(), ..s };
        lemma_counted_reduced(rest, s.ops.last());
        lemma_counted_settled(reduced(rest, s.ops.last()));
    }
}

proof fn lemma_counted_step(s: Scan, c: char)
    requires
        counted(s),
    ensures
        counted(step(s, c)),
{
    reveal(step);
    let f = flushed(s);
    lemma_counted_flushed(s);
    if s.err is None && !is_numeric(c) && !is_ascii_space(c) && symbol_of(c) is Some {
        let sym = symbol_of(c)->0;
        lemma_counted_reduced(f, sym);
        lemma_counted_drained(f, true);
        lemma_counted_settled(f);
        if f.ops.len() > 0 {
            lemma_counted_reduced(f, f.ops.last());
        }
    }
}

proof fn lemma_counted_scan(cs: Seq<char>)
    ensures
        counted(scan(cs)),
    decreases cs.len(),
{
    if cs.len() > 0 {
        lemma_counted_scan(cs.drop_last());
        lemma_counted_step(scan(cs.drop_last()), cs.last());
    }
}

/// Running the steps of any schedule never finds too few operands, and a
/// schedule that ends without error leaves exactly one: the value.
pub proof fn law_schedule_runs(cs: Seq<char>)
    ensures
        operands_after(plan_of(cs).steps) is Some,
        plan_of(cs).end is None ==> operands_after(plan_of(cs).steps) == Some(1nat),
{
    let s = scan(cs);
    lemma_counted_scan(cs);
    if s.err is None {
        lemma_counted_flushed(s);
        lemma_counted_drained(flushed(s), false);
    }
}

/// The first character that is neither a digit, a point, whitespace nor an
/// operator stops the scan with that character, unless an error came before it.
pub proof fn law_unknown_symbol(cs: Seq<char>, k: int)
    requires
        0 <= k < cs.len(),
        !is_recognized(cs[k]),
        scan(cs.take(k)).err is None,
    ensures
        plan_of(cs).end == Some(EvalError::UnknownSymbol(cs[k])),
{
    reveal(step);
    assert(cs.take(k + 1).drop_last() =~= cs.take(k));
    let s = scan(cs.take(k + 1));
    assert(s.err == Some(EvalError::UnknownSymbol(cs[k])));
    assert(cs.take(k + 1) + cs.skip(k + 1) =~= cs);
    lemma_scan_append(cs.take(k + 1), cs.skip(k + 1));
    lemma_run_failed(s, cs.skip(k + 1));
}

/// `+` or `-`: the operators of the looser tier.
pub open spec fn is_additive(op: Symbol) -> bool {
    op == Symbol::Add || op == Symbol::Sub
}

/// The first operator is applied first: it binds at least as tightly as the
/// second, and operators of one tier associate from the left.
pub open spec fn first_applies_first(op1: Symbol, op2: Symbol) -> bool {
    !is_additive(op1) || is_additive(op2)
}

proof fn lemma_settled_done(s: Scan)
    requires
        s.ops.len() == 0,
    ensures
        settled(s) == s,
{
}

proof fn lemma_drained_done(s: Scan)
    requires
        s.ops.len() == 0,
    ensures
        drained(s, false) == s,
{
}

/// Precedence and associativity: in `a op1 b op2 c` with binary operators,
/// `op1` is applied before `op2` (`(a op1 b) op2 c`) where it binds at least
/// as tightly, so `10 - 2 + 3` is `(10 - 2) + 3` and `1 - 2 - 3` is
/// `(1 - 2) - 3`; otherwise `op2` is applied first (`a op1 (b op2 c)`), as in
/// `1 + 2 * 3`.
pub proof fn law_three_operands(a: Seq<char>, op1: char, b: Seq<char>, op2: char, c: Seq<char>)
    requires
        is_number_text(a),
        is_number_text(b),
        is_number_text(c),
        op1 == '+' || op1 == '-' || op1 == '*' || op1 == '/',
        op2 == '+' || op2 == '-' || op2 == '*' || op2 == '/',
    ensures
        plan_of(a + seq![op1] + b + seq![op2] + c).end == None::<EvalError>,
        plan_of(a + seq![op1] + b + seq![op2] + c).steps == if first_applies_first(
            symbol_of(op1)->0,
            symbol_of(op2)->0,
        ) {
            seq![
                StepModel::Literal(a),
                StepModel::Literal(b),
                StepModel::Apply(symbol_of(op1)->0),
                StepModel::Literal(c),
                StepModel::Apply(symbol_of(op2)->0),
            ]
        } else {
            seq![
                StepModel::Literal(a),
                StepModel::Literal(b),
                StepModel::Literal(c),
                StepModel::Apply(symbol_of(op2)->0),
                StepModel::Apply(symbol_of(op1)->0),
            ]
        },
{
    reveal(step);
    let sym1 = symbol_of(op1)->0;
    let sym2 = symbol_of(op2)->0;
    let la = StepModel::Literal(a);
    let lb = StepModel::Literal(b);
    let lc = StepModel::Literal(c);
    assert(seq![] + a =~= a);
    lemma_scan_append(seq![], a);
    lemma_run_number(start(), a);
    let e1 = a + seq![op1];
    lemma_scan_append(a, seq![op1]);
    lemma_run_one(scan(a), op1);
    let s1 = scan(e1);
    assert(s1.ops =~= seq![sym1]);
    assert(s1.steps =~= seq![la]);
    let e2 = e1 + b;
    lemma_scan_append(e1, b);
    lemma_run_number(s1, b);
    let s2 = scan(e2);
    let e3 = e2 + seq![op2];
    lemma_scan_append(e2, seq![op2]);
    lemma_run_one(s2, op2);
    let f = flushed(s2);
    assert(f.steps =~= seq![la, lb]);
    let rest = Scan { ops: f.ops.drop_last(), ..f };
    assert(rest.ops =~= seq![]);
    let s3 = scan(e3);
    if is_additive(sym2) {
        lemma_settled_done(reduced(rest, sym1));
        assert(s3.ops =~= seq![sym2]);
        assert(s3.steps =~= seq![la, lb, StepModel::Apply(sym1)]);
    } else if !is_additive(sym1) {
        assert(s3.ops =~= seq![sym2]);
        assert(s3.steps =~= seq![la, lb, StepModel::Apply(sym1)]);
    } else {
        assert(s3.ops =~= seq![sym1, sym2]);
        assert(s3.steps =~= seq![la, lb]);
    }
    let e4 = e3 + c;
    lemma_scan_append(e3, c);
    lemma_run_number(s3, c);
    let g = flushed(scan(e4));
    let g1 = Scan { ops: g.ops.drop_last(), ..g };
    let h = reduced(g1, sym2);
    if first_applies_first(sym1, sym2) {
        assert(g1.ops =~= seq![]);
        lemma_drained_done(h);
        assert(h.steps =~= seq![la, lb, StepModel::Apply(sym1), lc, StepModel::Apply(sym2)]);
    } else {
        assert(g1.ops =~= seq![sym1]);
        let h1 = Scan { ops: h.ops.drop_last(), ..h };
        assert(h1.ops =~= seq![]);
        lemma_drained_done(reduced(h1, sym1));
        assert(drained(h, false) == drained(reduced(h1, sym1), false));
        assert(reduced(h1, sym1).steps =~= seq![
            la,
            lb,
            lc,
            StepModel::Apply(sym2),
            StepModel::Apply(sym1),
        ]);
    }
}

proof fn lemma_prefix_clean(cs: Seq<char>, k: int)
    requires
        0 <= k <= cs.len(),
        scan(cs).err is None,
    ensures
        scan(cs.take(k)).err is None,
{
    assert(cs.take(k) + cs.skip(k) =~= cs);
    lemma_scan_append(cs.take(k), cs.skip(k));
    if scan(cs.take(k)).err is Some {
        lemma_run_failed(scan(cs.take(k)), cs.skip(k));
    }
}

/// An expression that evaluates without a structural error holds only
/// recognised characters, and its parentheses are balanced: no prefix closes
/// more of them than it opens, and the whole closes as many as it opens.
pub proof fn law_balanced_parentheses(cs: Seq<char>)
    requires
        plan_of(cs).end is None,
    ensures
        forall|i: int| 0 <= i < cs.len() ==> is_recognized(#[trigger] cs[i]),
        forall|k: int|
            0 <= k <= cs.len() ==> count(#[trigger] cs.take(k), '(') >= count(cs.take(k), ')'),
        count(cs, '(') == count(cs, ')'),
{
    reveal(step);
    if scan(cs).err is Some {
        assert(finished(scan(cs)) == scan(cs));
    }
    assert forall|i: int| 0 <= i < cs.len() implies is_recognized(#[trigger] cs[i]) by {
        lemma_prefix_clean(cs, i);
        lemma_prefix_clean(cs, i + 1);
        assert(cs.take(i + 1).drop_last() =~= cs.take(i));
    }
    assert forall|k: int| 0 <= k <= cs.len() implies count(#[trigger] cs.take(k), '(') >= count(
        cs.take(k),
        ')',
    ) by {
        lemma_prefix_clean(cs, k);
        assert(forall|i: int| 0 <= i < k ==> #[trigger] cs.take(k)[i] == cs[i]);
        lemma_scan_opens(cs.take(k));
    }
    if count(cs, '(') != count(cs, ')') {
        law_unbalanced_parentheses(cs);
    }
}

} // verus!
