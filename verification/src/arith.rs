//! Arithmetic that the caller supplies.
//!
//! The loss model and the length of a packet are formulas over floating-point
//! numbers. This crate fixes the formulas, operation by operation and in order;
//! the operations themselves come from the caller, as one function from an
//! [`Op`] and two operands to the result. Operands and results are the bit
//! patterns of the numbers: a `u32` for single precision, a `u64` for double.
//! What a computation returns is stated as an [`Expr`] that the supplied
//! function evaluates to that result, whatever the function is.

use vstd::prelude::*;

use crate::single::{ONE, ZERO};

verus! {

/// An operation on numbers of one precision. The last four take one operand,
/// which is handed over twice.
#[derive(Clone, Copy, Debug, PartialEq, Eq, Structural)]
pub enum Op {
    Add,
    Sub,
    Mul,
    Div,
    Neg,
    Exp,
    Tanh,
    Round,
}

/// A formula over numbers with patterns in `W`.
pub enum Expr<W> {
    Lit(W),
    Unary(Op, Box<Expr<W>>),
    Binary(Op, Box<Expr<W>>, Box<Expr<W>>),
}

/// What an arithmetic can give: whether an operation on two operands can have a
/// result.
pub type Ops<W> = spec_fn(Op, W, W, W) -> bool;

/// What the function `f` can give.
pub open spec fn graph<W, F: Fn(Op, W, W) -> W>(f: F) -> Ops<W> {
    |op: Op, a: W, b: W, r: W| call_ensures(f, (op, a, b), r)
}

/// Whether `f` may be called on every operation and all operands.
pub open spec fn total<W, F: Fn(Op, W, W) -> W>(f: F) -> bool {
    forall|op: Op, a: W, b: W| #[trigger] call_requires(f, (op, a, b))
}

/// Whether there is at most one result for each operation and operands.
pub open spec fn functional<W>(ops: Ops<W>) -> bool {
    forall|op: Op, a: W, b: W, r: W, s: W| #[trigger]
        ops(op, a, b, r) && #[trigger] ops(op, a, b, s) ==> r == s
}

/// Whether computing `e`, operands first, can give `r`.
pub open spec fn evaluates<W>(ops: Ops<W>, e: Expr<W>, r: W) -> bool
    decreases e,
{
    match e {
        Expr::Lit(v) => r == v,
        Expr::Unary(op, a) => exists|x: W|
            evaluates(ops, *a, x) && #[trigger] ops(op, x, x, r),
        Expr::Binary(op, a, b) => exists|x: W, y: W|
            evaluates(ops, *a, x) && evaluates(ops, *b, y) && #[trigger] ops(op, x, y, r),
    }
}

/// `a + b`.
pub open spec fn plus<W>(a: Expr<W>, b: Expr<W>) -> Expr<W> {
    Expr::Binary(Op::Add, Box::new(a), Box::new(b))
}

/// `a - b`.
pub open spec fn minus<W>(a: Expr<W>, b: Expr<W>) -> Expr<W> {
    Expr::Binary(Op::Sub, Box::new(a), Box::new(b))
}

/// `a * b`.
pub open spec fn times<W>(a: Expr<W>, b: Expr<W>) -> Expr<W> {
    Expr::Binary(Op::Mul, Box::new(a), Box::new(b))
}

/// `a / b`.
pub open spec fn over<W>(a: Expr<W>, b: Expr<W>) -> Expr<W> {
    Expr::Binary(Op::Div, Box::new(a), Box::new(b))
}

/// An operation of one operand.
pub open spec fn unary<W>(op: Op, a: Expr<W>) -> Expr<W> {
    Expr::Unary(op, Box::new(a))
}

/// The hyperbolic tangent.
pub open spec fn tanh(a: Expr<u32>) -> Expr<u32> {
    unary(Op::Tanh, a)
}

/// The logistic function, `1 / (1 + exp(-a))`.
pub open spec fn sigma(a: Expr<u32>) -> Expr<u32> {
    over(Expr::Lit(ONE), plus(Expr::Lit(ONE), unary(Op::Exp, unary(Op::Neg, a))))
}

/// The dot product of the first `n` entries, summed from the left.
pub open spec fn partial_dot(w: Seq<u32>, x: Seq<u32>, n: nat) -> Expr<u32>
    decreases n,
{
    if n == 0 {
        Expr::Lit(ZERO)
    } else {
        plus(
            partial_dot(w, x, (n - 1) as nat),
            times(Expr::Lit(w[n - 1]), Expr::Lit(x[n - 1])),
        )
    }
}

/// The dot product of two vectors of one length.
pub open spec fn dot_of(w: Seq<u32>, x: Seq<u32>) -> Expr<u32> {
    partial_dot(w, x, w.len())
}

/// `w . x + b`.
pub open spec fn affine(w: Seq<u32>, x: Seq<u32>, b: u32) -> Expr<u32> {
    plus(dot_of(w, x), Expr::Lit(b))
}

/// A result is a function of the formula as soon as each operation is.
pub proof fn lemma_evaluates_once<W>(ops: Ops<W>, e: Expr<W>, r: W, s: W)
    requires
        functional(ops),
        evaluates(ops, e, r),
        evaluates(ops, e, s),
    ensures
        r == s,
    decreases e,
{
    match e {
        Expr::Lit(_) => {},
        Expr::Unary(op, a) => {
            let x = choose|x: W|
                evaluates(ops, *a, x) && #[trigger] ops(op, x, x, r);
            let u = choose|u: W|
                evaluates(ops, *a, u) && #[trigger] ops(op, u, u, s);
            lemma_evaluates_once(ops, *a, x, u);
        },
        Expr::Binary(op, a, b) => {
            let (x, y) = choose|x: W, y: W|
                evaluates(ops, *a, x) && evaluates(ops, *b, y) && #[trigger] ops(op, x, y, r);
            let (u, v) = choose|u: W, v: W|
                evaluates(ops, *a, u) && evaluates(ops, *b, v) && #[trigger] ops(op, u, v, s);
            lemma_evaluates_once(ops, *a, x, u);
            lemma_evaluates_once(ops, *b, y, v);
        },
    }
}

/// Applies an operation to the values of two formulas.
pub(crate) fn apply<W, F: Fn(Op, W, W) -> W>(
    f: &F,
    op: Op,
    x: W,
    y: W,
    Ghost(a): Ghost<Expr<W>>,
    Ghost(b): Ghost<Expr<W>>,
) -> (r: W)
    requires
        total(*f),
        evaluates(graph(*f), a, x),
        evaluates(graph(*f), b, y),
    ensures
        evaluates(graph(*f), Expr::Binary(op, Box::new(a), Box::new(b)), r),
{
    let r: W = f(op, x, y);
    assert(graph(*f)(op, x, y, r));
    r
}

/// Applies an operation of one operand to the value of a formula.
pub(crate) fn apply_unary<W: Copy, F: Fn(Op, W, W) -> W>(
    f: &F,
    op: Op,
    x: W,
    Ghost(a): Ghost<Expr<W>>,
) -> (r: W)
    requires
        total(*f),
        evaluates(graph(*f), a, x),
    ensures
        evaluates(graph(*f), unary(op, a), r),
{
    let r: W = f(op, x, x);
    assert(graph(*f)(op, x, x, r));
    r
}

/// The logistic function of the value of a formula.
pub(crate) fn sigmoid_of<F: Fn(Op, u32, u32) -> u32>(
    f: &F,
    x: u32,
    Ghost(a): Ghost<Expr<u32>>,
) -> (r: u32)
    requires
        total(*f),
        evaluates(graph(*f), a, x),
    ensures
        evaluates(graph(*f), sigma(a), r),
{
    let ghost one = Expr::Lit(ONE);
    let ghost neg = unary(Op::Neg, a);
    let ghost exp = unary(Op::Exp, neg);
    let n: u32 = apply_unary(f, Op::Neg, x, Ghost(a));
    let e: u32 = apply_unary(f, Op::Exp, n, Ghost(neg));
    let d: u32 = apply(f, Op::Add, ONE, e, Ghost(one), Ghost(exp));
    apply(f, Op::Div, ONE, d, Ghost(one), Ghost(plus(one, exp)))
}

/// Logistic sigmoid.
pub fn sigmoid<F: Fn(Op, u32, u32) -> u32>(x: u32, f: &F) -> (r: u32)
    requires
        total(*f),
    ensures
        evaluates(graph(*f), sigma(Expr::Lit(x)), r),
{
    sigmoid_of(f, x, Ghost(Expr::Lit(x)))
}

/// Dot product of two equal-length vectors.
pub fn dot<const N: usize, F: Fn(Op, u32, u32) -> u32>(
    w: &[u32; N],
    x: &[u32; N],
    f: &F,
) -> (r: u32)
    requires
        total(*f),
    ensures
        evaluates(graph(*f), dot_of(w@, x@), r),
{
    let mut acc: u32 = ZERO;
    let mut i: usize = 0;
    while i < N
        invariant
            i <= N,
            total(*f),
            evaluates(graph(*f), partial_dot(w@, x@, i as nat), acc),
        decreases N - i,
    {
        let ghost wi = Expr::Lit(w@[i as int]);
        let ghost xi = Expr::Lit(x@[i as int]);
        let product: u32 = apply(f, Op::Mul, w[i], x[i], Ghost(wi), Ghost(xi));
        let ghost sum = partial_dot(w@, x@, i as nat);
        acc = apply(f, Op::Add, acc, product, Ghost(sum), Ghost(times(wi, xi)));
        i += 1;
    }
    acc
}

/// A dot product with a bias added.
pub(crate) fn dot_plus<const N: usize, F: Fn(Op, u32, u32) -> u32>(
    w: &[u32; N],
    x: &[u32; N],
    b: u32,
    f: &F,
) -> (r: u32)
    requires
        total(*f),
    ensures
        evaluates(graph(*f), affine(w@, x@, b), r),
{
    let d: u32 = dot(w, x, f);
    apply(f, Op::Add, d, b, Ghost(dot_of(w@, x@)), Ghost(Expr::Lit(b)))
}

} // verus!
