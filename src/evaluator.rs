use vstd::prelude::*;
use vstd::std_specs::iter::IteratorSpec;

use crate::symbol::{symbol_of, EvalError, Symbol};
use crate::text::{
    is_ascii_space, is_ascii_space_char, is_digit, is_digit_char, string_from_chars,
};

verus! {

broadcast use vstd::string::axiom_spec_iter, vstd::string::next_postcondition;

/// One step of a reduction schedule, as the contracts see it.
pub enum StepModel {
    /// Read the characters as a number and push it on the operand stack.
    Literal(Seq<char>),
    /// Reduce the operand stack by the operator.
    Apply(Symbol),
}

/// One step of a reduction schedule.
///
/// A schedule is what evaluating an expression does to its operand stack, in
/// scan order: `Literal` pushes a number read from its text, `Apply(Symbol::Per)`
/// replaces the top operand `b` by `b / 100`, and `Apply(op)` of a binary `op`
/// pops `b`, then `a`, and pushes `a op b`.
#[derive(Debug, PartialEq)]
pub enum Step {
    Literal(String),
    Apply(Symbol),
}

impl View for Step {
    type V = StepModel;

    open spec fn view(&self) -> StepModel {
        match self {
            Step::Literal(s) => StepModel::Literal(s@),
            Step::Apply(op) => StepModel::Apply(*op),
        }
    }
}

pub open spec fn steps_view(v: Seq<Step>) -> Seq<StepModel> {
    v.map_values(|s: Step| s@)
}

/// A reduction schedule, as the contracts see it.
pub struct PlanModel {
    pub steps: Seq<StepModel>,
    pub end: Option<EvalError>,
}

/// The reduction schedule of an expression: the steps to run on the operand
/// stack, and, where the scan stopped on an error, that error, which comes
/// after every step. Where `end` is `None`, running the steps leaves exactly
/// one operand, the value of the expression.
#[derive(Debug, PartialEq)]
pub struct Plan {
    pub steps: Vec<Step>,
    pub end: Option<EvalError>,
}

impl View for Plan {
    type V = PlanModel;

    open spec fn view(&self) -> PlanModel {
        PlanModel { steps: steps_view(self.steps@), end: self.end }
    }
}

/// The state of a scan: the operator stack, how many operands the operand
/// stack holds, the characters of the number being read, the last character
/// that was not whitespace, the steps so far, and the error that stopped it.
pub struct Scan {
    pub ops: Seq<Symbol>,
    pub depth: nat,
    pub buf: Seq<char>,
    pub before: char,
    pub steps: Seq<StepModel>,
    pub err: Option<EvalError>,
}

pub open spec fn is_numeric(c: char) -> bool {
    is_digit(c) || c == '.'
}

/// After such a character a `+` or `-` is a binary operator, not a sign.
pub open spec fn ends_operand(c: char) -> bool {
    is_digit(c) || c == ')' || c == '%'
}

pub open spec fn is_binary(op: Symbol) -> bool {
    op == Symbol::Add || op == Symbol::Sub || op == Symbol::Mul || op == Symbol::Div
}

pub open spec fn start() -> Scan {
    Scan { ops: seq![], depth: 0, buf: seq![], before: '\0', steps: seq![], err: None }
}

pub open spec fn failed(s: Scan, e: EvalError) -> Scan {
    Scan { err: Some(e), ..s }
}

/// The number being read, if any, becomes a step and an operand.
pub open spec fn flushed(s: Scan) -> Scan {
    if s.buf.len() == 0 {
        s
    } else {
        Scan {
            steps: s.steps.push(StepModel::Literal(s.buf)),
            depth: s.depth + 1,
            buf: seq![],
            ..s
        }
    }
}

/// One reduction by `op`: percent needs one operand, a binary operator two,
/// and a parenthesis is no operator at all.
pub open spec fn reduced(s: Scan, op: Symbol) -> Scan {
    if op == Symbol::Per {
        if s.depth >= 1 {
            Scan { steps: s.steps.push(StepModel::Apply(op)), ..s }
        } else {
            failed(s, EvalError::MalformedExpression)
        }
    } else if is_binary(op) {
        if s.depth >= 2 {
            Scan { steps: s.steps.push(StepModel::Apply(op)), depth: (s.depth - 1) as nat, ..s }
        } else {
            failed(s, EvalError::MalformedExpression)
        }
    } else {
        failed(s, EvalError::MalformedExpression)
    }
}

/// Pops and reduces operators: up to and including the innermost `(` where
/// `to_paren` holds (its absence is an error), else all of them (a `(` among
/// them is an error).
pub open spec fn drained(s: Scan, to_paren: bool) -> Scan
    decreases s.ops.len(),
{
    if s.err is Some {
        s
    } else if s.ops.len() == 0 {
        if to_paren {
            failed(s, EvalError::MalformedExpression)
        } else {
            s
        }
    } else {
        let top = s.ops.last();
        let rest = Scan { ops: s.ops.drop_last(), ..s };
        if to_paren && top == Symbol::ParL {
            rest
        } else {
            drained(reduced(rest, top), to_paren)
        }
    }
}

/// Pops and reduces the pending operators above the innermost `(` (all of
/// them where there is none).
pub open spec fn settled(s: Scan) -> Scan
    decreases s.ops.len(),
{
    if s.err is Some || s.ops.len() == 0 || s.ops.last() == Symbol::ParL {
        s
    } else {
        settled(reduced(Scan { ops: s.ops.drop_last(), ..s }, s.ops.last()))
    }
}

/// Pushes a binary operator, or a `(` that follows a number.
///
/// A `+` or `-` first reduces every pending operator above the innermost
/// `(`, so that chains of `+` and `-` associate from left to right
/// (`10 - 2 + 3` is `(10 - 2) + 3`). Stacking them up and reducing them only
/// at a `)` or at the end would associate them from the right. A `*`, a `/`
/// or such a `(` first reduces a `*` or `/` on top of the stack, so that they
/// bind tighter than `+` and `-` and also associate from the left. Such a
/// `(` brings a `*` before it.
pub open spec fn pushed(s: Scan, sym: Symbol) -> Scan {
    let s1 = if sym == Symbol::Add || sym == Symbol::Sub {
        settled(s)
    } else if s.ops.len() > 0 && (s.ops.last() == Symbol::Mul || s.ops.last() == Symbol::Div) {
        let r = reduced(s, s.ops.last());
        Scan { ops: r.ops.drop_last(), ..r }
    } else {
        s
    };
    if s1.err is Some {
        s1
    } else {
        let s2 = if sym == Symbol::ParL {
            Scan { ops: s1.ops.push(Symbol::Mul), ..s1 }
        } else {
            s1
        };
        Scan { ops: s2.ops.push(sym), ..s2 }
    }
}

/// What an operator character does, once the number before it is flushed.
pub open spec fn on_symbol(s: Scan, c: char, sym: Symbol) -> Scan {
    if sym == Symbol::Per {
        reduced(s, sym)
    } else if sym == Symbol::ParL && !is_digit(s.before) {
        Scan { ops: s.ops.push(sym), ..s }
    } else if (sym == Symbol::Add || sym == Symbol::Sub) && !ends_operand(s.before) {
        Scan { buf: s.buf.push(c), ..s }
    } else if sym == Symbol::ParR {
        drained(s, true)
    } else {
        pushed(s, sym)
    }
}

/// The scan of one character.
#[verifier::opaque]
pub open spec fn step(s: Scan, c: char) -> Scan {
    if s.err is Some {
        s
    } else if is_numeric(c) {
        Scan { buf: s.buf.push(c), before: c, ..s }
    } else if is_ascii_space(c) {
        s
    } else {
        let f = flushed(s);
        match symbol_of(c) {
            None => failed(f, EvalError::UnknownSymbol(c)),
            Some(sym) => Scan { before: c, ..on_symbol(f, c, sym) },
        }
    }
}

/// The scan of a sequence of characters, from the start state.
pub open spec fn scan(cs: Seq<char>) -> Scan
    decreases cs.len(),
{
    if cs.len() == 0 {
        start()
    } else {
        step(scan(cs.drop_last()), cs.last())
    }
}

/// End of input: the last number is flushed, every operator reduced, and
/// exactly one operand must remain.
pub open spec fn finished(s: Scan) -> Scan {
    if s.err is Some {
        s
    } else {
        let d = drained(flushed(s), false);
        if d.err is None && d.depth != 1 {
            failed(d, EvalError::MalformedExpression)
        } else {
            d
        }
    }
}

/// The reduction schedule of an expression.
pub open spec fn plan_of(cs: Seq<char>) -> PlanModel {
    let f = finished(scan(cs));
    PlanModel { steps: f.steps, end: f.err }
}

/// The executable state of a scan that has met no error.
pub struct Scanner {
    ops: Vec<Symbol>,
    depth: usize,
    buf: Vec<char>,
    before: char,
    steps: Vec<Step>,
}

impl View for Scanner {
    type V = Scan;

    closed spec fn view(&self) -> Scan {
        Scan {
            ops: self.ops@,
            depth: self.depth as nat,
            buf: self.buf@,
            before: self.before,
            steps: steps_view(self.steps@),
            err: None,
        }
    }
}

/// `r` is the outcome of a scanner operation whose result in the model is `s`:
/// on success the scanner is `s`; on an error, `s` stopped on that error with
/// the scanner's steps.
pub open spec fn agrees(sc: Scanner, s: Scan, r: Result<(), EvalError>) -> bool {
    match r {
        Ok(()) => s.err is None && sc@ == s,
        Err(e) => s.err == Some(e) && sc@.steps == s.steps,
    }
}

proof fn lemma_steps_push(v: Seq<Step>, x: Step)
    ensures
        steps_view(v.push(x)) == steps_view(v).push(x@),
{
    assert(steps_view(v.push(x)) =~= steps_view(v).push(x@));
}

impl Scanner {
    pub closed spec fn load(&self) -> nat {
        self.depth as nat + self.buf@.len()
    }

    fn new() -> (r: Scanner)
        ensures
            r@ == start(),
            r.load() == 0,
    {
        let r = Scanner {
            ops: Vec::new(),
            depth: 0,
            buf: Vec::new(),
            before: '\0',
            steps: Vec::new(),
        };
        assert(r@.steps =~= seq![]);
        r
    }

    fn push_step(&mut self, st: Step)
        ensures
            final(self)@ == (Scan { steps: old(self)@.steps.push(st@), ..old(self)@ }),
            final(self).load() == old(self).load(),
    {
        proof {
            lemma_steps_push(self.steps@, st);
        }
        self.steps.push(st);
    }

    fn flush(&mut self)
        requires
            old(self).load() <= usize::MAX,
        ensures
            final(self)@ == flushed(old(self)@),
            final(self).load() <= old(self).load(),
    {
        if self.buf.len() > 0 {
            let lit = string_from_chars(&self.buf);
            self.push_step(Step::Literal(lit));
            self.depth = self.depth + 1;
            self.buf = Vec::new();
            assert(self@.buf =~= seq![]);
        }
    }

    fn reduce(&mut self, op: Symbol) -> (r: Result<(), EvalError>)
        ensures
            agrees(*final(self), reduced(old(self)@, op), r),
            final(self)@.ops == old(self)@.ops,
            final(self).load() <= old(self).load(),
    {
        match op {
            Symbol::Per => {
                if self.depth >= 1 {
                    self.push_step(Step::Apply(op));
                    Ok(())
                } else {
                    Err(EvalError::MalformedExpression)
                }
            },
            Symbol::Add | Symbol::Sub | Symbol::Mul | Symbol::Div => {
                if self.depth >= 2 {
                    self.push_step(Step::Apply(op));
                    self.depth = self.depth - 1;
                    Ok(())
                } else {
                    Err(EvalError::MalformedExpression)
                }
            },
            _ => Err(EvalError::MalformedExpression),
        }
    }

    fn drain(&mut self, to_paren: bool) -> (r: Result<(), EvalError>)
        ensures
            agrees(*final(self), drained(old(self)@, to_paren), r),
            final(self)@.ops.len() <= old(self)@.ops.len(),
            final(self)@.ops == old(self)@.ops.take(final(self)@.ops.len() as int),
            final(self).load() <= old(self).load(),
    {
        loop
            invariant
                drained(self@, to_paren) == drained(old(self)@, to_paren),
                self@.ops.len() <= old(self)@.ops.len(),
                self@.ops == old(self)@.ops.take(self@.ops.len() as int),
                self.load() <= old(self).load(),
            decreases self.ops.len(),
        {
            let ghost s = self@;
            match self.ops.pop() {
                None => {
                    return if to_paren {
                        Err(EvalError::MalformedExpression)
                    } else {
                        Ok(())
                    };
                },
                Some(top) => {
                    assert(self@ == (Scan { ops: s.ops.drop_last(), ..s }));
                    assert(self@.ops =~= old(self)@.ops.take(self@.ops.len() as int));
                    if to_paren && top == Symbol::ParL {
                        return Ok(());
                    }
                    assert(drained(s, to_paren) == drained(reduced(self@, top), to_paren));
                    match self.reduce(top) {
                        Ok(()) => {},
                        Err(e) => {
                            return Err(e);
                        },
                    }
                },
            }
        }
    }

    /// Reduces the pending operators above the innermost `(`.
    fn settle(&mut self) -> (r: Result<(), EvalError>)
        ensures
            agrees(*final(self), settled(old(self)@), r),
            final(self).load() <= old(self).load(),
    {
        loop
            invariant
                settled(self@) == settled(old(self)@),
                self.load() <= old(self).load(),
            decreases self.ops.len(),
        {
            let n = self.ops.len();
            if n == 0 {
                return Ok(());
            }
            let top = self.ops[n - 1];
            if top == Symbol::ParL {
                return Ok(());
            }
            let ghost s = self@;
            self.ops.pop();
            assert(self@ == (Scan { ops: s.ops.drop_last(), ..s }));
            assert(settled(s) == settled(reduced(self@, top)));
            match self.reduce(top) {
                Ok(()) => {},
                Err(e) => {
                    return Err(e);
                },
            }
        }
    }

    /// Pushes an operator after the reductions it calls for; see `pushed`.
    fn push_op(&mut self, sym: Symbol) -> (r: Result<(), EvalError>)
        ensures
            agrees(*final(self), pushed(old(self)@, sym), r),
            final(self).load() <= old(self).load(),
    {
        if sym == Symbol::Add || sym == Symbol::Sub {
            match self.settle() {
                Ok(()) => {},
                Err(e) => {
                    return Err(e);
                },
            }
        } else {
            let n = self.ops.len();
            if n > 0 {
                let top = self.ops[n - 1];
                if top == Symbol::Mul || top == Symbol::Div {
                    match self.reduce(top) {
                        Ok(()) => {},
                        Err(e) => {
                            return Err(e);
                        },
                    }
                    self.ops.pop();
                }
            }
        }
        if sym == Symbol::ParL {
            self.ops.push(Symbol::Mul);
        }
        self.ops.push(sym);
        Ok(())
    }

    fn feed(&mut self, c: char) -> (r: Result<(), EvalError>)
        requires
            old(self).load() < usize::MAX,
        ensures
            agrees(*final(self), step(old(self)@, c), r),
            final(self).load() <= old(self).load() + 1,
    {
        reveal(step);
        if is_digit_char(c) || c == '.' {
            self.buf.push(c);
            self.before = c;
            return Ok(());
        }
        if is_ascii_space_char(c) {
            return Ok(());
        }
        self.flush();
        let sym = match Symbol::parse(c) {
            Ok(sym) => sym,
            Err(e) => {
                return Err(e);
            },
        };
        let ghost f = self@;
        let r = if sym == Symbol::Per {
            self.reduce(sym)
        } else if sym == Symbol::ParL && !is_digit_char(self.before) {
            self.ops.push(sym);
            Ok(())
        } else if (sym == Symbol::Add || sym == Symbol::Sub) && !(is_digit_char(self.before)
            || self.before == ')' || self.before == '%') {
            self.buf.push(c);
            Ok(())
        } else if sym == Symbol::ParR {
            self.drain(true)
        } else {
            self.push_op(sym)
        };
        assert(agrees(*self, on_symbol(f, c, sym), r));
        if r.is_ok() {
            self.before = c;
        }
        r
    }
}

/// Errors are final: characters after one change nothing.
proof fn lemma_scan_stays_failed(cs: Seq<char>, k: int)
    requires
        0 <= k <= cs.len(),
        scan(cs.take(k)).err is Some,
    ensures
        scan(cs) == scan(cs.take(k)),
    decreases cs.len() - k,
{
    reveal(step);
    if k < cs.len() {
        assert(cs.take(k + 1).drop_last() =~= cs.take(k));
        lemma_scan_stays_failed(cs, k + 1);
    } else {
        assert(cs.take(k) =~= cs);
    }
}

/// The reduction schedule of an expression, made in one forward scan.
///
/// Running `steps` in order on an operand stack of numbers, and stopping at
/// the first step that fails (a literal that is no number, a division by
/// zero), then reporting `end`, is evaluating the expression.
pub fn plan(expr: &str) -> (r: Plan)
    ensures
        r@ == plan_of(expr@),
{
    let n = expr.unicode_len();
    let mut sc = Scanner::new();
    let mut it = expr.chars();
    let mut i: usize = 0;
    while i < n
        invariant
            n == expr@.len(),
            i <= n,
            it.remaining() == expr@.skip(i as int),
            sc@ == scan(expr@.take(i as int)),
            sc.load() <= i,
        decreases n - i,
    {
        let ghost before = sc@;
        let c = it.next().unwrap();
        assert(c == expr@[i as int]);
        assert(expr@.take(i + 1).drop_last() =~= expr@.take(i as int));
        assert(expr@.skip(i + 1) =~= expr@.skip(i as int).drop_first());
        match sc.feed(c) {
            Ok(()) => {},
            Err(e) => {
                proof {
                    lemma_scan_stays_failed(expr@, i + 1);
                }
                return Plan { steps: sc.steps, end: Some(e) };
            },
        }
        i = i + 1;
    }
    assert(expr@.take(n as int) =~= expr@);
    sc.flush();
    match sc.drain(false) {
        Err(e) => Plan { steps: sc.steps, end: Some(e) },
        Ok(()) => {
            if sc.depth == 1 {
                Plan { steps: sc.steps, end: None }
            } else {
                Plan { steps: sc.steps, end: Some(EvalError::MalformedExpression) }
            }
        },
    }
}

} // verus!
