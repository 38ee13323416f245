//! What each operation does, in terms of numbers and single operations alone.
//!
//! The contracts speak of states and formulas. The laws here say what those come
//! to: which bits make which number, which words drop a packet, which operation is
//! applied to what and in which order, and what of a state changes and what stays.

use vstd::prelude::*;
use vstd::arithmetic::div_mod::{
    lemma_add_mod_noop, lemma_fundamental_div_mod, lemma_mul_mod_noop_left, lemma_small_mod,
};
use vstd::arithmetic::power2::{
    lemma2_to64, lemma_pow2_adds, lemma_pow2_pos, lemma_pow2_unfold, pow2,
};

use crate::arith::{
    affine, dot_of, evaluates, functional, graph, minus, over, partial_dot, plus, sigma, tanh, times,
    total, unary, Expr, Op, Ops,
};
use crate::double;
use crate::double::THOUSAND;
use crate::dsp::{
    decision, feedback, gain_of, length_of, packet_length, product, repacketed, sample, started,
    steady, stretch, walk, MaskerState,
};
use crate::model::{
    blank, blend, dense_in, gate, gru_layer, gru_unit, model_prob, model_step, new_gate, ModelState,
    Weights,
};
use crate::plugin::{
    packet_differs, picked_up, processed, rendered, restarted, BlockStatus, DropoutPluginParams,
    PluginState,
};
use crate::rng::{advance, advance_by, output, rotated, seeded, uniform, RngState};
use crate::single;
use crate::single::{NAN, ONE};

verus! {

// ---------------------------------------------------------------------------
// Numbers
// ---------------------------------------------------------------------------

/// A single is put together from a sign bit, eight bits of exponent and
/// twenty-three bits of fraction. In units of 2^-149 it is its fraction where the
/// exponent is 0, and else 2^23 plus the fraction, doubled once for each exponent
/// above 1. The largest exponent is that of infinity and of what is no number.
pub proof fn law_single_is_put_together(sign: int, exponent: int, fraction: int, bits: u32)
    requires
        0 <= sign < 2,
        0 <= exponent < 256,
        0 <= fraction < 0x80_0000,
        bits == sign * 0x8000_0000 + exponent * 0x80_0000 + fraction,
    ensures
        single::exponent(bits) == exponent,
        single::fraction(bits) == fraction,
        single::is_negative(bits) <==> sign == 1,
        single::is_finite(bits) <==> exponent < 255,
        single::is_nan(bits) <==> exponent == 255 && fraction > 0,
        exponent == 0 ==> single::magnitude(bits) == fraction,
        exponent >= 1 ==> single::magnitude(bits) == (0x80_0000 + fraction) * pow2(
            (exponent - 1) as nat,
        ),
        sign == 0 ==> single::value(bits) == single::magnitude(bits),
        sign == 1 ==> single::value(bits) == -single::magnitude(bits),
{
    let e: int = single::exponent(bits);
    assert(bits as int / 0x80_0000 == sign * 256 + exponent);
    assert(e == exponent);
}

/// Singles follow each other: the smallest is 0, the one above a finite one is a
/// unit larger that doubles with the exponent, and the sign bit turns a number
/// into its opposite.
pub proof fn law_singles_follow_each_other(bits: u32)
    requires
        bits < 0x7f80_0000,
    ensures
        single::magnitude(0) == 0,
        bits < 0x80_0000 ==> single::magnitude((bits + 1) as u32) == single::magnitude(bits) + 1,
        bits >= 0x80_0000 ==> single::magnitude((bits + 1) as u32) == single::magnitude(bits)
            + pow2((bits as int / 0x80_0000 - 1) as nat),
        single::value(bits) == single::magnitude(bits),
        single::value((bits + 0x8000_0000) as u32) == -single::magnitude(bits),
        !single::is_nan(bits) && !single::is_nan((bits + 0x8000_0000) as u32),
{
    let next = (bits + 1) as u32;
    let e: int = bits as int / 0x80_0000;
    let f: int = bits as int % 0x80_0000;
    lemma2_to64();
    assert(bits == e * 0x80_0000 + f && 0 <= e < 255);
    law_single_is_put_together(0, e, f, bits);
    law_single_is_put_together(1, e, f, (bits + 0x8000_0000) as u32);
    if f + 1 < 0x80_0000 {
        law_single_is_put_together(0, e, f + 1, next);
        if e >= 1 {
            let unit = pow2((e - 1) as nat) as int;
            assert((0x80_0000 + f + 1) * unit == (0x80_0000 + f) * unit + unit)
                by (nonlinear_arith);
        }
    } else {
        law_single_is_put_together(0, e + 1, 0, next);
        if e >= 1 {
            lemma_pow2_unfold(e as nat);
            let unit = pow2((e - 1) as nat) as int;
            assert(0x80_0000 * (2 * unit) == 0xff_ffff * unit + unit) by (nonlinear_arith);
        }
    }
}

/// The order of singles, by their patterns `a` and `b` without the sign bit, up to
/// the infinity 0x7f80_0000: positive ones go with their patterns, negative ones
/// against them, every negative one but -0.0 is below every positive one, and what
/// is above the infinity is in no order.
pub proof fn law_order_of_singles(a: u32, b: u32)
    requires
        a < 0x8000_0000,
        b < 0x8000_0000,
    ensures
        a <= 0x7f80_0000 && b <= 0x7f80_0000 ==> {
            &&& single::less(a, b) <==> a < b
            &&& single::less((a + 0x8000_0000) as u32, (b + 0x8000_0000) as u32) <==> b < a
            &&& single::less((a + 0x8000_0000) as u32, b) <==> a > 0 || b > 0
            &&& !single::less(a, (b + 0x8000_0000) as u32)
        },
        a > 0x7f80_0000 || b > 0x7f80_0000 ==> {
            &&& !single::less(a, b)
            &&& !single::less((a + 0x8000_0000) as u32, (b + 0x8000_0000) as u32)
            &&& !single::less((a + 0x8000_0000) as u32, b)
            &&& !single::less(a, (b + 0x8000_0000) as u32)
        },
{
    let (na, nb) = ((a + 0x8000_0000) as u32, (b + 0x8000_0000) as u32);
    let (ea, fa) = (a as int / 0x80_0000, a as int % 0x80_0000);
    let (eb, fb) = (b as int / 0x80_0000, b as int % 0x80_0000);
    law_single_is_put_together(0, ea, fa, a);
    law_single_is_put_together(1, ea, fa, na);
    law_single_is_put_together(0, eb, fb, b);
    law_single_is_put_together(1, eb, fb, nb);
    single::lemma_constants();
    assert(single::magnitude(0) == 0);
    if a <= 0x7f80_0000 && b <= 0x7f80_0000 {
        if a < b {
            single::lemma_magnitude_increases(a, b);
        }
        if b < a {
            single::lemma_magnitude_increases(b, a);
        }
        if a > 0 {
            single::lemma_magnitude_increases(0, a);
        }
        if b > 0 {
            single::lemma_magnitude_increases(0, b);
        }
    }
}

/// A double is put together as a single is, with eleven bits of exponent and
/// fifty-two bits of fraction, in units of 2^-1074.
pub proof fn law_double_is_put_together(sign: int, exponent: int, fraction: int, bits: u64)
    requires
        0 <= sign < 2,
        0 <= exponent < 2048,
        0 <= fraction < 0x10_0000_0000_0000,
        bits == sign * 0x8000_0000_0000_0000 + exponent * 0x10_0000_0000_0000 + fraction,
    ensures
        double::exponent(bits) == exponent,
        double::fraction(bits) == fraction,
        double::is_negative(bits) <==> sign == 1,
        double::is_nan(bits) <==> exponent == 2047 && fraction > 0,
        exponent == 0 ==> double::magnitude(bits) == fraction,
        exponent >= 1 ==> double::magnitude(bits) == (0x10_0000_0000_0000 + fraction) * pow2(
            (exponent - 1) as nat,
        ),
{
    assert(bits as int / 0x10_0000_0000_0000 == sign * 2048 + exponent);
}

/// A widened number is the same number with the same sign; an infinity stays one,
/// and what is no number stays none.
pub proof fn law_widening_keeps_the_number(bits: u32, wide: u64)
    requires
        double::widens(bits, wide),
    ensures
        wide >= 0x8000_0000_0000_0000 <==> bits >= 0x8000_0000,
        single::is_finite(bits) ==> double::magnitude(wide) * pow2(149) == single::magnitude(bits)
            * pow2(1074),
        single::is_finite(bits) ==> !double::is_nan(wide),
        bits == 0x7f80_0000 ==> wide == 0x7ff0_0000_0000_0000,
        bits == 0xff80_0000 ==> wide == 0xfff0_0000_0000_0000,
        single::is_nan(bits) <==> double::is_nan(wide),
        single::is_nan(bits) ==> wide as int % 0x10_0000_0000_0000 == (bits as int % 0x80_0000)
            * 0x2000_0000,
{
    lemma_pow2_adds(925, 149);
    let m = single::magnitude(bits);
    let (p, q) = (pow2(925) as int, pow2(149) as int);
    assert((m * p) * q == m * (p * q)) by (nonlinear_arith);
    let (e, f) = (bits as int / 0x80_0000 % 256, bits as int % 0x80_0000);
    let (we, wf) = (double::exponent(wide), double::fraction(wide));
    let sign: int = if bits >= 0x8000_0000 {
        1
    } else {
        0
    };
    assert(bits == sign * 0x8000_0000 + e * 0x80_0000 + f);
    law_single_is_put_together(sign, e, f, bits);
    let rest = wide as int - sign * 0x8000_0000_0000_0000;
    assert(0 <= rest < 0x8000_0000_0000_0000);
    let (re, rf) = (rest / 0x10_0000_0000_0000, rest % 0x10_0000_0000_0000);
    law_double_is_put_together(sign, re, rf, wide);
}

/// The count of a double: none for what is negative or no number; else the most
/// whole units that fit, as far as a count goes.
pub proof fn law_count_is_the_whole_part(bits: u64)
    ensures
        bits > 0x7ff0_0000_0000_0000 ==> double::count(bits) == 0,
        bits <= 0x7ff0_0000_0000_0000 ==> {
            &&& 0 <= double::count(bits) <= usize::MAX
            &&& double::count(bits) * pow2(1074) <= double::magnitude(bits)
            &&& double::count(bits) < usize::MAX ==> double::magnitude(bits) < (double::count(bits)
                + 1) * pow2(1074)
        },
{
    let (sign, rest): (int, int) = if bits >= 0x8000_0000_0000_0000 {
        (1, bits - 0x8000_0000_0000_0000)
    } else {
        (0, bits as int)
    };
    law_double_is_put_together(sign, rest / 0x10_0000_0000_0000, rest % 0x10_0000_0000_0000, bits);
    let unit = pow2(1074) as int;
    lemma_pow2_pos(1074);
    let m = double::magnitude(bits);
    if sign == 0 && rest <= 0x7ff0_0000_0000_0000 {
        let e: int = rest / 0x10_0000_0000_0000;
        if e >= 1 {
            let p = pow2((e - 1) as nat) as int;
            lemma_pow2_pos((e - 1) as nat);
            let f = rest % 0x10_0000_0000_0000;
            assert((0x10_0000_0000_0000 + f) * p >= 0) by (nonlinear_arith)
                requires
                    p > 0,
                    f >= 0,
            ;
        }
        assert(m >= 0);
        lemma_fundamental_div_mod(m, unit);
        let q = m / unit;
        assert(0 <= m % unit < unit);
        assert(q >= 0) by (nonlinear_arith)
            requires
                m >= 0,
                unit > 0,
                m == unit * q + m % unit,
                m % unit < unit,
        ;
        let c = double::count(bits);
        assert(c * unit <= m && (c == q ==> m < (c + 1) * unit)) by (nonlinear_arith)
            requires
                m == unit * q + m % unit,
                0 <= m % unit < unit,
                unit > 0,
                c <= q,
        ;
    }
}

// ---------------------------------------------------------------------------
// The generator
// ---------------------------------------------------------------------------

/// A generator advances by the congruence of its multiplier modulo 2^64, on its
/// own stream.
pub proof fn law_advance_is_congruent(s: RngState)
    ensures
        advance(s).inc == s.inc,
        (s.state * 6_364_136_223_846_793_005 + s.inc - advance(s).state)
            % 0x1_0000_0000_0000_0000 == 0,
        advance_by(s, 0) == s,
        forall|n: nat| #[trigger] advance_by(s, n + 1) == advance(advance_by(s, n)),
{
    let x: int = s.state * 6_364_136_223_846_793_005 + s.inc;
    lemma_fundamental_div_mod(x, 0x1_0000_0000_0000_0000);
}

/// A seed names the stream of the increment twice the seed plus one, and starts on
/// it with the increment and the mixed seed together advanced by one step: all
/// modulo 2^64.
pub proof fn law_seed_names_stream_and_start(seed: u64)
    ensures
        seeded(seed).inc == (2 * seed + 1) % 0x1_0000_0000_0000_0000,
        seeded(seed).state == ((seeded(seed).inc + (seed ^ 0x853c_49e6_748f_ea9b))
            * 6_364_136_223_846_793_005 + seeded(seed).inc) % 0x1_0000_0000_0000_0000,
{
    let m: int = 0x1_0000_0000_0000_0000;
    let k: int = 6_364_136_223_846_793_005;
    let inc: int = seeded(seed).inc as int;
    let mixed: int = inc + (seed ^ 0x853c_49e6_748f_ea9b);
    assert(inc == (2 * seed + 1) % m);
    lemma_small_mod(inc as nat, m as nat);
    lemma_mul_mod_noop_left(mixed, k, m);
    lemma_add_mod_noop((mixed % m) * k, inc, m);
    lemma_add_mod_noop(mixed * k, inc, m);
}

/// Bit `i` of a drawn word comes from the two bits of the state that stand
/// twenty-seven and forty-five places above bit `j`, where `j` is `i` moved up by
/// the number in the topmost five bits, counted round: it is set where just one of
/// them is, and above the top there is no second.
pub proof fn law_word_is_drawn_bit_by_bit(state: u64, i: u32)
    requires
        i < 32,
    ensures
        ({
            let j = ((i + state as int / 0x800_0000_0000_0000) % 32) as u64;
            let first = (state >> ((j + 27) as u64)) & 1;
            let second = (state >> ((j + 45) as u64)) & 1;
            &&& j < 19 ==> ((output(state) >> i) & 1) as u64 == first ^ second
            &&& j >= 19 ==> ((output(state) >> i) & 1) as u64 == first
        }),
{
    let rot: u32 = (state >> 59) as u32;
    assert(state >> 59 == state / 0x800_0000_0000_0000 && state >> 59 < 32) by (bit_vector);
    let x: u32 = #[verifier::truncate] ((((state >> 18) ^ state) >> 27) as u32);
    crate::laws::law_rotation_moves_each_bit(x, rot, i);
    let j: u32 = ((i + rot) % 32) as u32;
    let jj: u64 = j as u64;
    assert(((x >> j) & 1) as u64 == (((state >> 18) ^ state) >> ((jj + 27) as u64)) & 1)
        by (bit_vector)
        requires
            x == (((state >> 18) ^ state) >> 27) as u32,
            jj == j as u64,
            j < 32,
    ;
    if j < 19 {
        assert((((state >> 18) ^ state) >> ((jj + 27) as u64)) & 1 == ((state >> ((jj + 27)
            as u64)) & 1) ^ ((state >> ((jj + 45) as u64)) & 1)) by (bit_vector)
            requires
                jj < 19,
        ;
    } else {
        assert((((state >> 18) ^ state) >> ((jj + 27) as u64)) & 1 == (state >> ((jj + 27)
            as u64)) & 1) by (bit_vector)
            requires
                19 <= jj < 32,
        ;
    }
}

/// A threshold is the upper twenty-four bits of its word, as a fraction of 2^24:
/// of the words from `256 * k` up to the next multiple it is k / 2^24.
pub proof fn law_threshold_is_the_upper_bits(word: u32, k: int)
    requires
        256 * k <= word < 256 * k + 256,
    ensures
        uniform(word) * 0x100_0000 == k * pow2(149),
{
    lemma2_to64();
    lemma_pow2_adds(24, 125);
    assert(word as int / 256 == k);
    let p = pow2(125) as int;
    assert((k * p) * 0x100_0000 == k * (0x100_0000 * p)) by (nonlinear_arith);
}

// ---------------------------------------------------------------------------
// Arithmetic
// ---------------------------------------------------------------------------

/// A supplied function is taken at its word: what it can give is what it can
/// return, and it is total just where it may be called on everything.
pub proof fn law_arithmetic_is_the_supplied_function<W, F: Fn(Op, W, W) -> W>(
    f: F,
    op: Op,
    a: W,
    b: W,
    r: W,
)
    ensures
        graph(f)(op, a, b, r) <==> call_ensures(f, (op, a, b), r),
        total(f) <==> forall|o: Op, x: W, y: W| #[trigger] call_requires(f, (o, x, y)),
{
}

/// An arithmetic in which no operation has two results is functional, and no other.
pub proof fn law_functional_arithmetic_has_one_result<W>(
    ops: Ops<W>,
    op: Op,
    a: W,
    b: W,
    r: W,
    s: W,
)
    ensures
        functional(ops) && ops(op, a, b, r) && ops(op, a, b, s) ==> r == s,
        !functional(ops) ==> exists|o: Op, x: W, y: W, u: W, v: W|
            u != v && #[trigger] ops(o, x, y, u) && #[trigger] ops(o, x, y, v),
{
}

/// The operands of an operation.
proof fn lemma_operands<W>(ops: Ops<W>, op: Op, a: Expr<W>, b: Expr<W>, r: W) -> (operands: (W, W))
    requires
        evaluates(ops, Expr::Binary(op, Box::new(a), Box::new(b)), r),
    ensures
        evaluates(ops, a, operands.0),
        evaluates(ops, b, operands.1),
        ops(op, operands.0, operands.1, r),
{
    choose|x: W, y: W|
        evaluates(ops, a, x) && evaluates(ops, b, y) && #[trigger] ops(op, x, y, r)
}

/// The operand of an operation that takes one.
proof fn lemma_operand<W>(ops: Ops<W>, op: Op, a: Expr<W>, r: W) -> (operand: W)
    requires
        evaluates(ops, Expr::Unary(op, Box::new(a)), r),
    ensures
        evaluates(ops, a, operand),
        ops(op, operand, operand, r),
{
    choose|x: W| evaluates(ops, a, x) && #[trigger] ops(op, x, x, r)
}

/// What a logistic function computes on the way.
pub struct Logistic {
    /// The number that it is taken of.
    pub of: u32,
    pub negated: u32,
    pub exponential: u32,
    pub denominator: u32,
}

/// The logistic function divides 1.0 by the sum of 1.0 and the exponential of the
/// opposite.
proof fn lemma_logistic(ops: Ops<u32>, e: Expr<u32>, r: u32) -> (l: Logistic)
    requires
        evaluates(ops, sigma(e), r),
    ensures
        evaluates(ops, e, l.of),
        ops(Op::Neg, l.of, l.of, l.negated),
        ops(Op::Exp, l.negated, l.negated, l.exponential),
        ops(Op::Add, 0x3f80_0000, l.exponential, l.denominator),
        ops(Op::Div, 0x3f80_0000, l.denominator, r),
{
    let one = Expr::Lit(ONE);
    let neg = unary(Op::Neg, e);
    let exp = unary(Op::Exp, neg);
    let (_, denominator) = lemma_operands(ops, Op::Div, one, plus(one, exp), r);
    let (_, exponential) = lemma_operands(ops, Op::Add, one, exp, denominator);
    let negated = lemma_operand(ops, Op::Exp, neg, exponential);
    let of = lemma_operand(ops, Op::Neg, e, negated);
    Logistic { of, negated, exponential, denominator }
}

/// The sigmoid of `x` is 1.0 over the sum of 1.0 and the exponential of -`x`.
pub proof fn law_sigmoid_is_logistic(ops: Ops<u32>, x: u32, r: u32) -> (l: Logistic)
    requires
        evaluates(ops, sigma(Expr::Lit(x)), r),
    ensures
        l.of == x,
        ops(Op::Neg, x, x, l.negated),
        ops(Op::Exp, l.negated, l.negated, l.exponential),
        ops(Op::Add, 0x3f80_0000, l.exponential, l.denominator),
        ops(Op::Div, 0x3f80_0000, l.denominator, r),
{
    lemma_logistic(ops, Expr::Lit(x), r)
}

/// The sums of the first entries of a dot product.
proof fn lemma_partial_dot(
    ops: Ops<u32>,
    w: Seq<u32>,
    x: Seq<u32>,
    n: nat,
    r: u32,
) -> (steps: (Seq<u32>, Seq<u32>))
    requires
        evaluates(ops, partial_dot(w, x, n), r),
    ensures
        steps.0.len() == n,
        steps.1.len() == n + 1,
        steps.1[0] == 0,
        steps.1[n as int] == r,
        forall|i: int| 0 <= i < n ==> ops(Op::Mul, w[i], x[i], #[trigger] steps.0[i]),
        forall|i: int|
            0 <= i < n ==> ops(Op::Add, steps.1[i], #[trigger] steps.0[i], steps.1[i + 1]),
    decreases n,
{
    if n == 0 {
        (Seq::empty(), seq![r])
    } else {
        let m = (n - 1) as nat;
        let (wm, xm) = (Expr::Lit(w[m as int]), Expr::Lit(x[m as int]));
        let (sum, product) = lemma_operands(
            ops,
            Op::Add,
            partial_dot(w, x, m),
            times(wm, xm),
            r,
        );
        let factors = lemma_operands(ops, Op::Mul, wm, xm, product);
        assert(factors == (w[m as int], x[m as int]));
        let (products, sums) = lemma_partial_dot(ops, w, x, m, sum);
        let steps = (products.push(product), sums.push(r));
        assert forall|i: int| 0 <= i < n implies ops(
            Op::Add,
            steps.1[i],
            #[trigger] steps.0[i],
            steps.1[i + 1],
        ) by {
            if i < m {
                assert(ops(Op::Add, sums[i], products[i], sums[i + 1]));
            }
        }
        steps
    }
}

/// A dot product adds up, from the left and from 0.0, the products of the entries
/// that stand at one place: it takes every entry, each once. The first result are
/// the products, the second the sums.
pub proof fn law_dot_adds_up_products(
    ops: Ops<u32>,
    w: Seq<u32>,
    x: Seq<u32>,
    r: u32,
) -> (steps: (Seq<u32>, Seq<u32>))
    requires
        evaluates(ops, dot_of(w, x), r),
    ensures
        steps.0.len() == w.len(),
        steps.1.len() == w.len() + 1,
        steps.1[0] == 0,
        steps.1[w.len() as int] == r,
        forall|i: int| 0 <= i < w.len() ==> ops(Op::Mul, w[i], x[i], #[trigger] steps.0[i]),
        forall|i: int|
            0 <= i < w.len() ==> ops(Op::Add, steps.1[i], #[trigger] steps.0[i], steps.1[i + 1]),
{
    lemma_partial_dot(ops, w, x, w.len(), r)
}

/// A bias is added to a dot product, which is the result.
pub proof fn law_affine_adds_the_bias(
    ops: Ops<u32>,
    w: Seq<u32>,
    x: Seq<u32>,
    b: u32,
    r: u32,
) -> (dot: u32)
    requires
        evaluates(ops, affine(w, x, b), r),
    ensures
        evaluates(ops, dot_of(w, x), dot),
        ops(Op::Add, dot, b, r),
{
    lemma_operands(ops, Op::Add, dot_of(w, x), Expr::Lit(b), r).0
}

// ---------------------------------------------------------------------------
// The model
// ---------------------------------------------------------------------------

/// What a reset or update gate computes on the way.
pub struct Gate {
    /// The dot product with the input, and with its bias.
    pub input: u32,
    pub biased: u32,
    /// The dot product with the hidden state, added to that, and with its bias.
    pub hidden: u32,
    pub joined: u32,
    pub logistic: Logistic,
    /// Its value.
    pub value: u32,
}

/// What a unit of a recurrent layer computes on the way.
pub struct Unit {
    pub reset: Gate,
    pub update: Gate,
    /// The dot product of the new gate with the input, and with its bias.
    pub input: u32,
    pub biased: u32,
    /// That with the hidden state, with its bias, and scaled by the reset gate.
    pub hidden: u32,
    pub hidden_biased: u32,
    pub scaled: u32,
    /// Both together, and its hyperbolic tangent.
    pub joined: u32,
    pub new: u32,
    /// What is let through of the new, that much of it, and what is kept of the old.
    pub share: u32,
    pub taken: u32,
    pub kept: u32,
}

/// The steps of a reset or update gate.
proof fn lemma_gate(
    ops: Ops<u32>,
    wi: Seq<u32>,
    bi: u32,
    wh: Seq<u32>,
    bh: u32,
    x: Seq<u32>,
    h: Seq<u32>,
    r: u32,
) -> (g: Gate)
    requires
        evaluates(ops, gate(wi, bi, wh, bh, x, h), r),
    ensures
        evaluates(ops, dot_of(wi, x), g.input),
        ops(Op::Add, g.input, bi, g.biased),
        evaluates(ops, dot_of(wh, h), g.hidden),
        ops(Op::Add, g.biased, g.hidden, g.joined),
        ops(Op::Add, g.joined, bh, g.logistic.of),
        ops(Op::Neg, g.logistic.of, g.logistic.of, g.logistic.negated),
        ops(Op::Exp, g.logistic.negated, g.logistic.negated, g.logistic.exponential),
        ops(Op::Add, 0x3f80_0000, g.logistic.exponential, g.logistic.denominator),
        ops(Op::Div, 0x3f80_0000, g.logistic.denominator, g.value),
        g.value == r,
{
    let both = plus(affine(wi, x, bi), dot_of(wh, h));
    let logistic = lemma_logistic(ops, plus(both, Expr::Lit(bh)), r);
    let (joined, _) = lemma_operands(ops, Op::Add, both, Expr::Lit(bh), logistic.of);
    let (biased, hidden) = lemma_operands(
        ops,
        Op::Add,
        affine(wi, x, bi),
        dot_of(wh, h),
        joined,
    );
    let input = law_affine_adds_the_bias(ops, wi, x, bi, biased);
    Gate { input, biased, hidden, joined, logistic, value: r }
}

/// A unit `i` of a recurrent layer, with its rows `i`, `H + i` and `2H + i`:
///
/// ```text
/// r = 1 / (1 + exp(-(W_ir . x + b_ir + W_hr . h + b_hr)))
/// z = 1 / (1 + exp(-(W_iz . x + b_iz + W_hz . h + b_hz)))
/// n = tanh(W_in . x + b_in + r * (W_hn . h + b_hn))
/// h' = (1 - z) * n + z * h
/// ```
///
/// operation by operation, on the old state of the whole layer.
pub proof fn law_recurrent_unit<
    const IN: usize,
    const H: usize,
    const H3: usize,
>(
    ops: Ops<u32>,
    w_ih: [[u32; IN]; H3],
    w_hh: [[u32; H]; H3],
    b_ih: [u32; H3],
    b_hh: [u32; H3],
    x: Seq<u32>,
    h: Seq<u32>,
    next: Seq<u32>,
    i: int,
) -> (u: Unit)
    requires
        gru_layer(ops, w_ih, w_hh, b_ih, b_hh, x, h, next),
        0 <= i < H,
    ensures
        next.len() == H,
        evaluates(ops, dot_of(w_ih@[i]@, x), u.reset.input),
        ops(Op::Add, u.reset.input, b_ih@[i], u.reset.biased),
        evaluates(ops, dot_of(w_hh@[i]@, h), u.reset.hidden),
        ops(Op::Add, u.reset.biased, u.reset.hidden, u.reset.joined),
        ops(Op::Add, u.reset.joined, b_hh@[i], u.reset.logistic.of),
        ops(Op::Neg, u.reset.logistic.of, u.reset.logistic.of, u.reset.logistic.negated),
        ops(
            Op::Exp,
            u.reset.logistic.negated,
            u.reset.logistic.negated,
            u.reset.logistic.exponential,
        ),
        ops(Op::Add, 0x3f80_0000, u.reset.logistic.exponential, u.reset.logistic.denominator),
        ops(Op::Div, 0x3f80_0000, u.reset.logistic.denominator, u.reset.value),
        evaluates(ops, dot_of(w_ih@[H + i]@, x), u.update.input),
        ops(Op::Add, u.update.input, b_ih@[H + i], u.update.biased),
        evaluates(ops, dot_of(w_hh@[H + i]@, h), u.update.hidden),
        ops(Op::Add, u.update.biased, u.update.hidden, u.update.joined),
        ops(Op::Add, u.update.joined, b_hh@[H + i], u.update.logistic.of),
        ops(Op::Neg, u.update.logistic.of, u.update.logistic.of, u.update.logistic.negated),
        ops(
            Op::Exp,
            u.update.logistic.negated,
            u.update.logistic.negated,
            u.update.logistic.exponential,
        ),
        ops(Op::Add, 0x3f80_0000, u.update.logistic.exponential, u.update.logistic.denominator),
        ops(Op::Div, 0x3f80_0000, u.update.logistic.denominator, u.update.value),
        evaluates(ops, dot_of(w_ih@[2 * H + i]@, x), u.input),
        ops(Op::Add, u.input, b_ih@[2 * H + i], u.biased),
        evaluates(ops, dot_of(w_hh@[2 * H + i]@, h), u.hidden),
        ops(Op::Add, u.hidden, b_hh@[2 * H + i], u.hidden_biased),
        ops(Op::Mul, u.reset.value, u.hidden_biased, u.scaled),
        ops(Op::Add, u.biased, u.scaled, u.joined),
        ops(Op::Tanh, u.joined, u.joined, u.new),
        ops(Op::Sub, 0x3f80_0000, u.update.value, u.share),
        ops(Op::Mul, u.share, u.new, u.taken),
        ops(Op::Mul, u.update.value, h[i], u.kept),
        ops(Op::Add, u.taken, u.kept, next[i]),
{
    let (zi, ni) = (H + i, 2 * H + i);
    let out = next[i];
    assert(gru_unit(ops, w_ih, w_hh, b_ih, b_hh, x, h, i, out));
    let r_expr = gate(w_ih@[i]@, b_ih@[i], w_hh@[i]@, b_hh@[i], x, h);
    let n_expr = new_gate(r_expr, w_ih@[ni]@, b_ih@[ni], w_hh@[ni]@, b_hh@[ni], x, h);
    let z_expr = gate(w_ih@[zi]@, b_ih@[zi], w_hh@[zi]@, b_hh@[zi], x, h);
    let z = choose|z: u32| #[trigger]
        evaluates(ops, z_expr, z) && evaluates(ops, blend(z, n_expr, h[i]), out);
    let update = lemma_gate(ops, w_ih@[zi]@, b_ih@[zi], w_hh@[zi]@, b_hh@[zi], x, h, z);
    let one = Expr::Lit(ONE);
    let (z_lit, h_lit) = (Expr::Lit(z), Expr::Lit(h[i]));
    let (taken, kept) = lemma_operands(
        ops,
        Op::Add,
        times(minus(one, z_lit), n_expr),
        times(z_lit, h_lit),
        out,
    );
    let (share, new) = lemma_operands(ops, Op::Mul, minus(one, z_lit), n_expr, taken);
    let _ = lemma_operands(ops, Op::Sub, one, z_lit, share);
    let _ = lemma_operands(ops, Op::Mul, z_lit, h_lit, kept);
    let input_expr = affine(w_ih@[ni]@, x, b_ih@[ni]);
    let hidden_expr = affine(w_hh@[ni]@, h, b_hh@[ni]);
    let joined = lemma_operand(ops, Op::Tanh, plus(input_expr, times(r_expr, hidden_expr)), new);
    let (biased, scaled) = lemma_operands(
        ops,
        Op::Add,
        input_expr,
        times(r_expr, hidden_expr),
        joined,
    );
    let (r, hidden_biased) = lemma_operands(ops, Op::Mul, r_expr, hidden_expr, scaled);
    let reset = lemma_gate(ops, w_ih@[i]@, b_ih@[i], w_hh@[i]@, b_hh@[i], x, h, r);
    let input = law_affine_adds_the_bias(ops, w_ih@[ni]@, x, b_ih@[ni], biased);
    let hidden = law_affine_adds_the_bias(ops, w_hh@[ni]@, h, b_hh@[ni], hidden_biased);
    Unit {
        reset,
        update,
        input,
        biased,
        hidden,
        hidden_biased,
        scaled,
        joined,
        new,
        share,
        taken,
        kept,
    }
}

/// What a step of the model computes on the way.
pub struct Step {
    /// The dot products of the input layer, with their biases, and their hyperbolic
    /// tangents.
    pub dots: Seq<u32>,
    pub biased: Seq<u32>,
    pub x: Seq<u32>,
    /// The dot product of the output layer.
    pub out: u32,
}

/// A step of the model takes the last decision and the target loss through the
/// input layer, that through the first recurrent layer, the new state of that
/// through the second, and the new state of that through the output layer.
pub proof fn law_step_goes_through_the_layers(
    ops: Ops<u32>,
    w: Weights,
    s: ModelState,
    last: u32,
    perc: u32,
    t: ModelState,
    logit: u32,
) -> (step: Step)
    requires
        model_step(ops, w, s, last, perc, t, logit),
    ensures
        step.dots.len() == 8 && step.biased.len() == 8 && step.x.len() == 8,
        forall|i: int|
            0 <= i < 8 ==> evaluates(
                ops,
                dot_of(w.dense_in_w@[i]@, seq![last, perc]),
                #[trigger] step.dots[i],
            ),
        forall|i: int|
            0 <= i < 8 ==> ops(
                Op::Add,
                step.dots[i],
                w.dense_in_b@[i],
                #[trigger] step.biased[i],
            ),
        forall|i: int|
            0 <= i < 8 ==> ops(Op::Tanh, step.biased[i], step.biased[i], #[trigger] step.x[i]),
        gru_layer(ops, w.gru1_w_ih, w.gru1_w_hh, w.gru1_b_ih, w.gru1_b_hh, step.x, s.h1, t.h1),
        gru_layer(ops, w.gru2_w_ih, w.gru2_w_hh, w.gru2_b_ih, w.gru2_b_hh, t.h1, s.h2, t.h2),
        evaluates(ops, dot_of(w.dense_out_w@[0]@, t.h2), step.out),
        ops(Op::Add, step.out, w.dense_out_b@[0], logit),
{
    let inp = seq![last, perc];
    let x = choose|x: Seq<u32>|
        {
            &&& #[trigger] dense_in(ops, w, last, perc, x)
            &&& gru_layer(ops, w.gru1_w_ih, w.gru1_w_hh, w.gru1_b_ih, w.gru1_b_hh, x, s.h1, t.h1)
            &&& gru_layer(ops, w.gru2_w_ih, w.gru2_w_hh, w.gru2_b_ih, w.gru2_b_hh, t.h1, s.h2, t.h2)
            &&& evaluates(ops, affine(w.dense_out_w@[0]@, t.h2, w.dense_out_b@[0]), logit)
        };
    let out = law_affine_adds_the_bias(ops, w.dense_out_w@[0]@, t.h2, w.dense_out_b@[0], logit);
    let (dots, biased) = lemma_dense_steps(ops, w, inp, x, 8);
    Step { dots, biased, x, out }
}

/// The steps of the first units of the input layer.
proof fn lemma_dense_steps(
    ops: Ops<u32>,
    w: Weights,
    inp: Seq<u32>,
    x: Seq<u32>,
    n: nat,
) -> (steps: (Seq<u32>, Seq<u32>))
    requires
        n <= 8,
        forall|i: int|
            0 <= i < n ==> evaluates(
                ops,
                tanh(affine(w.dense_in_w@[i]@, inp, w.dense_in_b@[i])),
                #[trigger] x[i],
            ),
    ensures
        steps.0.len() == n && steps.1.len() == n,
        forall|i: int|
            0 <= i < n ==> evaluates(
                ops,
                dot_of(w.dense_in_w@[i]@, inp),
                #[trigger] steps.0[i],
            ),
        forall|i: int|
            0 <= i < n ==> ops(
                Op::Add,
                steps.0[i],
                w.dense_in_b@[i],
                #[trigger] steps.1[i],
            ),
        forall|i: int|
            0 <= i < n ==> ops(Op::Tanh, steps.1[i], steps.1[i], #[trigger] x[i]),
    decreases n,
{
    if n == 0 {
        (Seq::empty(), Seq::empty())
    } else {
        let m = n - 1;
        let (row, bias) = (w.dense_in_w@[m]@, w.dense_in_b@[m]);
        let biased = lemma_operand(ops, Op::Tanh, affine(row, inp, bias), x[m]);
        let dot = law_affine_adds_the_bias(ops, row, inp, bias, biased);
        let (dots, rest) = lemma_dense_steps(ops, w, inp, x, m as nat);
        (dots.push(dot), rest.push(biased))
    }
}

/// The drop probability is the logistic function of the logit of a step on just
/// the last decision and the target loss that were handed over.
pub proof fn law_probability_is_logistic_of_the_logit(
    ops: Ops<u32>,
    w: Weights,
    s: ModelState,
    last: u32,
    perc: u32,
    t: ModelState,
    p: u32,
) -> (l: Logistic)
    requires
        model_prob(ops, w, s, last, perc, t, p),
    ensures
        model_step(ops, w, s, last, perc, t, l.of),
        ops(Op::Neg, l.of, l.of, l.negated),
        ops(Op::Exp, l.negated, l.negated, l.exponential),
        ops(Op::Add, 0x3f80_0000, l.exponential, l.denominator),
        ops(Op::Div, 0x3f80_0000, l.denominator, p),
{
    let logit = choose|logit: u32| #[trigger]
        model_step(ops, w, s, last, perc, t, logit) && evaluates(ops, sigma(Expr::Lit(logit)), p);
    law_sigmoid_is_logistic(ops, logit, p)
}

/// Every logit that a step can give, with every probability that the logistic
/// function can make of it, is one that the model can give.
pub proof fn law_every_logit_has_its_probability(
    ops: Ops<u32>,
    w: Weights,
    s: ModelState,
    last: u32,
    perc: u32,
    t: ModelState,
    l: Logistic,
    p: u32,
)
    requires
        model_step(ops, w, s, last, perc, t, l.of),
        ops(Op::Neg, l.of, l.of, l.negated),
        ops(Op::Exp, l.negated, l.negated, l.exponential),
        ops(Op::Add, 0x3f80_0000, l.exponential, l.denominator),
        ops(Op::Div, 0x3f80_0000, l.denominator, p),
    ensures
        model_prob(ops, w, s, last, perc, t, p),
{
    let one = Expr::Lit(ONE);
    let neg = unary(Op::Neg, Expr::Lit(l.of));
    let exp = unary(Op::Exp, neg);
    assert(evaluates(ops, one, ONE));
    assert(evaluates(ops, Expr::Lit(l.of), l.of));
    assert(evaluates(ops, neg, l.negated));
    assert(evaluates(ops, exp, l.exponential));
    assert(evaluates(ops, plus(one, exp), l.denominator));
    assert(evaluates(ops, sigma(Expr::Lit(l.of)), p));
}

/// The model starts with eight and sixteen hidden values, each of them 0.0.
pub proof fn law_model_starts_blank(i: int)
    ensures
        blank().h1.len() == 8 && blank().h2.len() == 16,
        0 <= i < 8 ==> blank().h1[i] == 0,
        0 <= i < 16 ==> blank().h2[i] == 0,
{
}

// ---------------------------------------------------------------------------
// Packets
// ---------------------------------------------------------------------------

/// What the length of a packet computes on the way.
pub struct Length {
    /// The milliseconds in double precision.
    pub ms: u64,
    pub product: u64,
    pub quotient: u64,
    pub rounded: u64,
}

/// A packet lasts the sample rate times its milliseconds, over 1000.0, rounded, and
/// then as many whole samples as that is.
pub proof fn law_packet_length_formula(
    wide: Ops<u64>,
    sample_rate: u64,
    packet_ms: u32,
    samples: int,
) -> (l: Length)
    requires
        packet_length(wide, sample_rate, packet_ms, samples),
    ensures
        double::widens(packet_ms, l.ms),
        wide(Op::Mul, sample_rate, l.ms, l.product),
        wide(Op::Div, l.product, 0x408f_4000_0000_0000, l.quotient),
        wide(Op::Round, l.quotient, l.quotient, l.rounded),
        samples == double::count(l.rounded),
{
    let (ms, rounded) = choose|ms: u64, rounded: u64|
        {
            &&& double::widens(packet_ms, ms)
            &&& #[trigger] evaluates(wide, length_of(sample_rate, ms), rounded)
            &&& samples == double::count(rounded)
        };
    let (rate_lit, ms_lit) = (Expr::Lit(sample_rate), Expr::Lit(ms));
    let thousand = Expr::Lit(THOUSAND);
    let rate_ms = times(rate_lit, ms_lit);
    let quotient = lemma_operand(wide, Op::Round, over(rate_ms, thousand), rounded);
    let (product, _) = lemma_operands(wide, Op::Div, rate_ms, thousand, quotient);
    let _ = lemma_operands(wide, Op::Mul, rate_lit, ms_lit, product);
    Length { ms, product, quotient, rounded }
}

/// The cursor of a well-formed masker stands in a packet of at least one sample, and
/// its model has eight and sixteen hidden values; nothing more is asked.
pub proof fn law_well_formed_masker(s: MaskerState)
    ensures
        s.wf() <==> 0 <= s.pos < s.packet_size && s.model.h1.len() == 8 && s.model.h2.len() == 16,
{
}

/// A new packet size moves nothing but the packet size, and the cursor where it
/// would stand outside its packet; a packet has at least one sample.
pub proof fn law_resize_moves_only_what_it_must(s: MaskerState, samples: int)
    ensures
        samples >= 1 ==> s.resized(samples).packet_size == samples,
        samples < 1 ==> s.resized(samples).packet_size == 1,
        s.pos < samples || s.pos < 1 ==> s.resized(samples).pos == s.pos,
        s.pos >= samples && s.pos >= 1 ==> s.resized(samples).pos == 0,
        s.resized(samples).rng == s.rng,
        s.resized(samples).model == s.model,
        s.resized(samples).dropped == s.dropped,
{
}

/// A packet size that is set has the length of its milliseconds and moves no more
/// than a new packet size does.
pub proof fn law_packet_size_in_milliseconds(
    wide: Ops<u64>,
    sample_rate: u64,
    packet_ms: u32,
    s: MaskerState,
    t: MaskerState,
) -> (samples: int)
    requires
        repacketed(wide, sample_rate, packet_ms, s, t),
    ensures
        packet_length(wide, sample_rate, packet_ms, samples),
        t.packet_size == if samples >= 1 {
            samples
        } else {
            1
        },
        t.pos == if s.pos >= t.packet_size {
            0
        } else {
            s.pos
        },
        t.rng == s.rng && t.model == s.model && t.dropped == s.dropped,
{
    choose|samples: int| #[trigger]
        packet_length(wide, sample_rate, packet_ms, samples) && t == s.resized(samples)
}

/// A pattern starts with the generator of its seed, a blank model, a keep behind it
/// and the cursor at a boundary.
pub proof fn law_pattern_starts_afresh(samples: int, seed: u64)
    ensures
        MaskerState::fresh(samples, seed).rng == seeded(seed),
        MaskerState::fresh(samples, seed).model == blank(),
        !MaskerState::fresh(samples, seed).dropped,
        MaskerState::fresh(samples, seed).pos == 0,
        samples >= 1 ==> MaskerState::fresh(samples, seed).packet_size == samples,
        samples < 1 ==> MaskerState::fresh(samples, seed).packet_size == 1,
{
}

/// A new masker starts the pattern of its seed, with packets of its milliseconds.
pub proof fn law_masker_starts_afresh(
    wide: Ops<u64>,
    sample_rate: u64,
    packet_ms: u32,
    seed: u64,
    s: MaskerState,
) -> (samples: int)
    requires
        started(wide, sample_rate, packet_ms, seed, s),
    ensures
        packet_length(wide, sample_rate, packet_ms, samples),
        s.packet_size == if samples >= 1 {
            samples
        } else {
            1
        },
        s.rng == seeded(seed) && s.model == blank() && !s.dropped && s.pos == 0,
{
    choose|samples: int| #[trigger]
        packet_length(wide, sample_rate, packet_ms, samples) && s == MaskerState::fresh(
            samples,
            seed,
        )
}

// ---------------------------------------------------------------------------
// Decisions and gains
// ---------------------------------------------------------------------------

/// Of the words, in order, a probability drops the first and keeps the rest: at a
/// probability above (k - 1) / 2^24 and up to k / 2^24 it drops those below 256 * k
/// and no others. So it drops none at 0 or below it, all at 1 or above it, and none
/// where it is no number. All else that changes is the generator, by one step.
pub proof fn law_probability_drops_the_first_words(s: MaskerState, prob: u32, k: int)
    ensures
        single::is_nan(prob) ==> !s.settled(prob).dropped,
        !single::is_nan(prob) && single::value(prob) <= 0 ==> !s.settled(prob).dropped,
        !single::is_nan(prob) && single::value(prob) >= pow2(149) ==> s.settled(prob).dropped,
        !single::is_nan(prob) && (k - 1) * pow2(125) < single::value(prob) <= k * pow2(125) ==> (
        s.settled(prob).dropped <==> output(s.rng.state) < 256 * k),
        s.settled(prob).rng == advance(s.rng),
        s.settled(prob).model == s.model,
        s.settled(prob).packet_size == s.packet_size,
        s.settled(prob).pos == s.pos,
{
    let word = output(s.rng.state);
    let j = word as int / 256;
    let unit = pow2(125) as int;
    let v = single::value(prob);
    law_threshold_is_the_upper_bits(word, j);
    lemma_pow2_pos(125);
    lemma2_to64();
    lemma_pow2_adds(24, 125);
    assert(uniform(word) == j * unit) by (nonlinear_arith)
        requires
            uniform(word) * 0x100_0000 == j * pow2(149),
            pow2(149) == 0x100_0000 * unit,
    ;
    assert(0 <= j * unit < 0x100_0000 * unit) by (nonlinear_arith)
        requires
            0 <= j < 0x100_0000,
            unit > 0,
    ;
    if (k - 1) * unit < v <= k * unit {
        if j < k {
            assert(j * unit <= (k - 1) * unit) by (nonlinear_arith)
                requires
                    j <= k - 1,
                    unit > 0,
            ;
        } else {
            assert(j * unit >= k * unit) by (nonlinear_arith)
                requires
                    j >= k,
                    unit > 0,
            ;
        }
        assert(word < 256 * k <==> j < k);
    }
}

/// A decision feeds the model its last decision, 1.0 for a drop and 0.0 for a keep,
/// and the target loss; it drops the packet just where the next threshold is below
/// the probability; and it moves neither the cursor nor the packet size. The result
/// is the probability.
pub proof fn law_decision_holds_threshold_against_model(
    ops: Ops<u32>,
    w: Weights,
    perc: u32,
    s: MaskerState,
    t: MaskerState,
) -> (prob: u32)
    requires
        decision(ops, w, perc, s, t),
    ensures
        s.dropped ==> model_prob(ops, w, s.model, 0x3f80_0000, perc, t.model, prob),
        !s.dropped ==> model_prob(ops, w, s.model, 0, perc, t.model, prob),
        t.rng == advance(s.rng),
        t.dropped <==> !single::is_nan(prob) && (output(s.rng.state) as int / 256) * pow2(125)
            < single::value(prob),
        t.packet_size == s.packet_size && t.pos == s.pos,
{
    let (model, prob) = choose|model: ModelState, prob: u32| #[trigger]
        model_prob(ops, w, s.model, feedback(s.dropped), perc, model, prob) && t == (MaskerState {
            model,
            ..s
        }).settled(prob);
    prob
}

/// A sample that begins a packet takes a decision at its target loss, of which the
/// result is the probability. A sample within a packet takes none: nothing changes
/// but the cursor. The gain is 0.0 in a dropped packet and 1.0 in a kept one, and
/// the cursor goes one further, to a boundary at the end of the packet.
pub proof fn law_sample_by_sample(
    ops: Ops<u32>,
    w: Weights,
    perc: u32,
    s: MaskerState,
    t: MaskerState,
    gain: u32,
) -> (prob: u32)
    requires
        sample(ops, w, perc, s, t, gain),
    ensures
        s.pos == 0 ==> {
            &&& s.dropped ==> model_prob(ops, w, s.model, 0x3f80_0000, perc, t.model, prob)
            &&& !s.dropped ==> model_prob(ops, w, s.model, 0, perc, t.model, prob)
            &&& t.rng == advance(s.rng)
            &&& t.dropped <==> !single::is_nan(prob) && (output(s.rng.state) as int / 256) * pow2(
                125,
            ) < single::value(prob)
        },
        s.pos != 0 ==> t.model == s.model && t.rng == s.rng && t.dropped == s.dropped,
        t.dropped ==> gain == 0,
        !t.dropped ==> gain == 0x3f80_0000,
        t.packet_size == s.packet_size,
        s.pos + 1 < s.packet_size ==> t.pos == s.pos + 1,
        s.pos + 1 >= s.packet_size ==> t.pos == 0,
{
    if s.pos == 0 {
        let d = choose|d: MaskerState| #[trigger]
            decision(ops, w, perc, s, d) && gain == gain_of(d.dropped) && t == d.moved();
        law_decision_holds_threshold_against_model(ops, w, perc, s, d)
    } else {
        0
    }
}

/// A stretch of samples is a chain of single ones, each at the target loss of its
/// place. The result are the states between them.
pub proof fn law_stretch_is_sample_by_sample(
    ops: Ops<u32>,
    w: Weights,
    percs: Seq<u32>,
    s: MaskerState,
    t: MaskerState,
    gains: Seq<u32>,
) -> (trace: Seq<MaskerState>)
    requires
        stretch(ops, w, percs, s, t, gains),
    ensures
        percs.len() == gains.len(),
        trace.len() == gains.len() + 1,
        trace[0] == s,
        trace[gains.len() as int] == t,
        forall|i: int|
            0 <= i < gains.len() ==> sample(
                ops,
                w,
                percs[i],
                trace[i],
                trace[i + 1],
                #[trigger] gains[i],
            ),
{
    choose|trace: Seq<MaskerState>| #[trigger]
        walk(ops, w, percs, trace, gains) && trace[0] == s && trace[gains.len() as int] == t
}

/// A steady target loss is the same at every sample, whatever it is.
pub proof fn law_steady_loss_is_the_same_everywhere(perc: u32, n: nat, i: int)
    ensures
        steady(perc, n).len() == n,
        0 <= i < n ==> steady(perc, n)[i] == perc,
{
}

/// Masking leaves a kept sample as it is, whatever it is; of a dropped one it leaves
/// the sign and nothing else, and no number where it was not finite.
pub proof fn law_masking_keeps_or_silences(input: u32)
    ensures
        product(input, 0x3f80_0000) == input,
        input < 0x7f80_0000 ==> product(input, 0) == 0,
        0x8000_0000 <= input < 0xff80_0000 ==> product(input, 0) == 0x8000_0000,
        0x7f80_0000 <= input < 0x8000_0000 || 0xff80_0000 <= input ==> single::is_nan(
            product(input, 0),
        ),
{
    let sign: int = if input >= 0x8000_0000 {
        1
    } else {
        0
    };
    let rest = input - sign * 0x8000_0000;
    law_single_is_put_together(sign, rest / 0x80_0000, rest % 0x80_0000, input);
    law_single_is_put_together(0, 255, 0x40_0000, NAN);
}

// ---------------------------------------------------------------------------
// The plugin
// ---------------------------------------------------------------------------

/// A seed of the host as a word: itself, or 2^64 more where it is negative.
proof fn lemma_seed_word(seed: i64)
    ensures
        seed >= 0 ==> (#[verifier::truncate] (seed as u64)) == seed,
        seed < 0 ==> (#[verifier::truncate] (seed as u64)) == seed + 0x1_0000_0000_0000_0000,
{
    assert(seed >= 0 ==> seed as u64 == seed) by (bit_vector);
    assert(seed < 0 ==> seed as u64 == seed + 0x1_0000_0000_0000_0000) by (bit_vector);
}

/// A plugin that is new or reset stands at the start of the pattern of its seed, at
/// the sample rate and with the packet size that it was given. The result is the
/// packet length and the seed as a word.
pub proof fn law_plugin_starts_afresh(
    wide: Ops<u64>,
    sample_rate: u64,
    p: DropoutPluginParams,
    s: PluginState,
) -> (start: (int, u64))
    requires
        restarted(wide, sample_rate, p, s),
    ensures
        packet_length(wide, sample_rate, p.packet_ms, start.0),
        p.seed >= 0 ==> start.1 == p.seed,
        p.seed < 0 ==> start.1 == p.seed + 0x1_0000_0000_0000_0000,
        s.masker.packet_size == if start.0 >= 1 {
            start.0
        } else {
            1
        },
        s.masker.rng == seeded(start.1) && s.masker.model == blank(),
        !s.masker.dropped && s.masker.pos == 0,
        s.sample_rate == sample_rate,
        s.last_seed == p.seed,
        s.last_packet_ms == p.packet_ms,
{
    lemma_seed_word(p.seed);
    let samples = choose|samples: int| #[trigger]
        packet_length(wide, sample_rate, p.packet_ms, samples) && s == PluginState::fresh(
            sample_rate,
            p,
            samples,
        );
    (samples, #[verifier::truncate] (p.seed as u64))
}

/// What picking up the parameters of a block found.
pub struct PickedUp {
    /// The difference of the packet sizes.
    pub difference: u32,
    /// Whether it counts.
    pub differs: bool,
    /// The length of the packet in samples, where it does.
    pub samples: int,
    /// The seed as a word.
    pub word: u64,
}

/// Picking up the parameters of a block: a packet size counts as new where it
/// differs from the last by more than 2^-23, and then sets the packet length and
/// moves the cursor where it overran. The generator, the hidden states and the latest
/// decision stay as they are as long as the seed does; a new seed starts them, and
/// the cursor, afresh. The sample rate is not touched.
pub proof fn law_picking_up_parameters(
    ops: Ops<u32>,
    wide: Ops<u64>,
    p: DropoutPluginParams,
    s: PluginState,
    t: PluginState,
) -> (found: PickedUp)
    requires
        picked_up(ops, wide, p, s, t),
        0 <= s.masker.pos < s.masker.packet_size,
    ensures
        ops(Op::Sub, p.packet_ms, s.last_packet_ms, found.difference),
        found.differs <==> !single::is_nan(found.difference) && single::magnitude(found.difference)
            > pow2(126),
        !found.differs ==> {
            &&& t.last_packet_ms == s.last_packet_ms
            &&& t.masker.packet_size == s.masker.packet_size
        },
        found.differs ==> {
            &&& t.last_packet_ms == p.packet_ms
            &&& packet_length(wide, s.sample_rate, p.packet_ms, found.samples)
            &&& found.samples >= 1 ==> t.masker.packet_size == found.samples
            &&& found.samples < 1 ==> t.masker.packet_size == 1
        },
        p.seed == s.last_seed ==> {
            &&& t.masker.rng == s.masker.rng
            &&& t.masker.model == s.masker.model
            &&& t.masker.dropped == s.masker.dropped
            &&& s.masker.pos < t.masker.packet_size ==> t.masker.pos == s.masker.pos
            &&& s.masker.pos >= t.masker.packet_size ==> t.masker.pos == 0
        },
        p.seed >= 0 ==> found.word == p.seed,
        p.seed < 0 ==> found.word == p.seed + 0x1_0000_0000_0000_0000,
        p.seed != s.last_seed ==> {
            &&& t.masker.rng == seeded(found.word)
            &&& t.masker.model == blank()
            &&& !t.masker.dropped
            &&& t.masker.pos == 0
        },
        t.last_seed == p.seed,
        t.sample_rate == s.sample_rate,
{
    lemma_seed_word(p.seed);
    let word = #[verifier::truncate] (p.seed as u64);
    let differs = choose|differs: bool|
        {
            &&& #[trigger] packet_differs(ops, p.packet_ms, s.last_packet_ms, differs)
            &&& if differs {
                exists|samples: int| #[trigger]
                    packet_length(wide, s.sample_rate, p.packet_ms, samples) && t == s.reseeded(
                        p.seed,
                    ).repacked(p.packet_ms, samples)
            } else {
                t == s.reseeded(p.seed)
            }
        };
    let difference = choose|d: u32|
        {
            &&& #[trigger] ops(Op::Sub, p.packet_ms, s.last_packet_ms, d)
            &&& differs == (!single::is_nan(d) && single::magnitude(d) > pow2(126))
        };
    let samples = if differs {
        choose|samples: int| #[trigger]
            packet_length(wide, s.sample_rate, p.packet_ms, samples) && t == s.reseeded(
                p.seed,
            ).repacked(p.packet_ms, samples)
    } else {
        0
    };
    PickedUp { difference, differs, samples, word }
}

/// Every sample of a block that is not in bypass is taken at the Loss of the block:
/// so every packet that begins in it is decided at just that target loss. The block
/// starts from what its parameters were picked up to, tells whether the latest packet
/// is dropped, and leaves the rest alone. The result is the state after picking up,
/// the states of the masker between the samples, and the probabilities of the packets
/// that begin at them.
pub proof fn law_block_is_decided_at_its_loss(
    ops: Ops<u32>,
    wide: Ops<u64>,
    w: Weights,
    p: DropoutPluginParams,
    s: PluginState,
    t: PluginState,
    gains: Seq<u32>,
    status: BlockStatus,
) -> (steps: (PluginState, Seq<MaskerState>, Seq<u32>))
    requires
        processed(ops, wide, w, p, s, t, gains, status),
        !p.bypass,
    ensures
        picked_up(ops, wide, p, s, steps.0),
        steps.1.len() == gains.len() + 1,
        steps.1[0] == steps.0.masker,
        steps.1[gains.len() as int] == t.masker,
        forall|i: int|
            0 <= i < gains.len() ==> sample(
                ops,
                w,
                p.loss,
                steps.1[i],
                steps.1[i + 1],
                #[trigger] gains[i],
            ),
        steps.2.len() == gains.len(),
        forall|i: int|
            0 <= i < gains.len() && steps.1[i].pos == 0 && steps.1[i].dropped ==> model_prob(
                ops,
                w,
                steps.1[i].model,
                0x3f80_0000,
                p.loss,
                steps.1[i + 1].model,
                #[trigger] steps.2[i],
            ),
        forall|i: int|
            0 <= i < gains.len() && steps.1[i].pos == 0 && !steps.1[i].dropped ==> model_prob(
                ops,
                w,
                steps.1[i].model,
                0,
                p.loss,
                steps.1[i + 1].model,
                #[trigger] steps.2[i],
            ),
        t.sample_rate == steps.0.sample_rate,
        t.last_seed == steps.0.last_seed,
        t.last_packet_ms == steps.0.last_packet_ms,
        !status.passthrough,
        t.masker.dropped ==> status.activity == 0x3f80_0000,
        !t.masker.dropped ==> status.activity == 0,
{
    let percs = steady(p.loss, gains.len());
    let u = choose|u: PluginState|
        {
            &&& #[trigger] picked_up(ops, wide, p, s, u)
            &&& stretch(ops, w, percs, u.masker, t.masker, gains)
            &&& t == (PluginState { masker: t.masker, ..u })
        };
    let trace = law_stretch_is_sample_by_sample(ops, w, percs, u.masker, t.masker, gains);
    assert forall|i: int| 0 <= i < gains.len() implies sample(
        ops,
        w,
        p.loss,
        trace[i],
        trace[i + 1],
        #[trigger] gains[i],
    ) by {
        law_steady_loss_is_the_same_everywhere(p.loss, gains.len(), i);
    }
    let fed = |i: int| feedback(trace[i].dropped);
    let probs = Seq::new(
        gains.len(),
        |i: int|
            choose|prob: u32| #[trigger]
                model_prob(ops, w, trace[i].model, fed(i), p.loss, trace[i + 1].model, prob),
    );
    assert forall|i: int| 0 <= i < gains.len() && trace[i].pos == 0 implies model_prob(
        ops,
        w,
        trace[i].model,
        fed(i),
        p.loss,
        trace[i + 1].model,
        #[trigger] probs[i],
    ) by {
        let prob = law_sample_by_sample(ops, w, p.loss, trace[i], trace[i + 1], gains[i]);
        assert(model_prob(ops, w, trace[i].model, fed(i), p.loss, trace[i + 1].model, prob));
    }
    (u, trace, probs)
}

/// A block in bypass leaves everything as it was, passes the audio through and shows
/// nothing on the meter.
pub proof fn law_bypass_leaves_everything(
    ops: Ops<u32>,
    wide: Ops<u64>,
    w: Weights,
    p: DropoutPluginParams,
    s: PluginState,
    t: PluginState,
    gains: Seq<u32>,
    status: BlockStatus,
)
    requires
        processed(ops, wide, w, p, s, t, gains, status),
        p.bypass,
    ensures
        t == s,
        status.passthrough,
        status.activity == 0,
{
}

/// A channel that is passed through is its input. Otherwise it has the length of its
/// input, a sample at gain 1.0 is as it was, and one at gain 0.0 is a zero of its sign,
/// or no number where it was not finite: at every place by itself.
pub proof fn law_channel_keeps_or_silences(input: Seq<u32>, gains: Seq<u32>, i: int)
    ensures
        rendered(true, input, gains) == input,
        rendered(false, input, gains).len() == input.len(),
        0 <= i < input.len() ==> {
            &&& gains[i] == 0x3f80_0000 ==> rendered(false, input, gains)[i] == input[i]
            &&& gains[i] == 0 && input[i] < 0x7f80_0000 ==> rendered(false, input, gains)[i] == 0
            &&& gains[i] == 0 && 0x8000_0000 <= input[i] < 0xff80_0000 ==> rendered(
                false,
                input,
                gains,
            )[i] == 0x8000_0000
            &&& gains[i] == 0 && !single::is_finite(input[i]) ==> single::is_nan(
                rendered(false, input, gains)[i],
            )
        },
{
    if 0 <= i < input.len() {
        law_masking_keeps_or_silences(input[i]);
        let sign: int = if input[i] >= 0x8000_0000 {
            1
        } else {
            0
        };
        let rest = input[i] - sign * 0x8000_0000;
        law_single_is_put_together(sign, rest / 0x80_0000, rest % 0x80_0000, input[i]);
    }
}

} // verus!
