//! What holds in an arithmetic that rounds, as floating point with 24 significant bits does.
use crate::arithmetic::Model;
use crate::exact::{half, is_exact};
use crate::fidelity::size;
use vstd::prelude::*;

verus! {

/// The largest part of a number that is lost when it is rounded.
pub open spec fn unit() -> real {
    1real / 16777216real
}

/// The magnitude up to which results are rounded: `2^128 - 2^104`.
pub open spec fn limit() -> real {
    340282346638528859811704183484516925440real
}

/// What the numbers of an arithmetic that rounds stand for.
#[verifier::reject_recursive_types(N)]
pub struct Meaning<N> {
    /// Whether a number stands for a real number.
    pub finite: spec_fn(N) -> bool,
    /// The real number that a number stands for.
    pub value: spec_fn(N) -> real,
    /// What a real number is rounded to.
    pub rounding: spec_fn(real) -> real,
    /// The arithmetic whose results are rounded.
    pub exact: Model<real>,
}

impl<N> Meaning<N> {
    #[verifier::inline]
    pub open spec fn finite(self, a: N) -> bool {
        (self.finite)(a)
    }

    #[verifier::inline]
    pub open spec fn value(self, a: N) -> real {
        (self.value)(a)
    }

    #[verifier::inline]
    pub open spec fn rounding(self, a: real) -> real {
        (self.rounding)(a)
    }

    #[verifier::inline]
    pub open spec fn cos(self, a: real) -> real {
        self.exact.cos(a)
    }

    /// Whether `a` stands for `exact`, rounded.
    pub open spec fn rounds(self, a: N, exact: real) -> bool {
        self.finite(a) && self.value(a) == self.rounding(exact) && self.loses_little(exact)
    }

    /// Whether no more than one part in `2^24` is lost when `a` is rounded, but for what lies
    /// below the square of that.
    pub open spec fn loses_little(self, a: real) -> bool {
        size(self.rounding(a) - a) <= unit() * size(a) + unit() * unit()
    }

    /// Whether what `a` stands for is not changed by rounding.
    pub open spec fn keeps(self, a: N) -> bool {
        self.finite(a) ==> self.rounding(self.value(a)) == self.value(a)
    }

    /// Whether rounding keeps the order of `a` and `b`.
    pub open spec fn order_rule(self, a: real, b: real) -> bool {
        a <= b ==> self.rounding(a) <= self.rounding(b)
    }

    /// Whether rounding does not depend on the sign.
    pub open spec fn mirror_rule(self, a: real) -> bool {
        self.rounding(-a) == -self.rounding(a)
    }

    /// Whether the cosines of two angles are at least as close as the angles.
    pub open spec fn slope_rule(self, a: real, b: real) -> bool {
        size(self.cos(a) - self.cos(b)) <= size(a - b)
    }
}

/// Whether the integer zero times `n`, and divided by it, is the integer zero.
pub open spec fn zero_rule<N>(m: Model<N>, n: u32) -> bool {
    &&& m.times((m.from_int)(0), (m.from_int)(n)) == (m.from_int)(0)
    &&& n > 0 ==> m.over((m.from_int)(0), (m.from_int)(n)) == (m.from_int)(0)
}

/// Whether `m` computes with rounded numbers, which stand for real numbers as `k` says. Integers
/// and the results of the four operations are rounded, integers of up to 24 bits, one half and
/// what a number stands for to themselves, and no more than one part in `2^24` is lost, but for
/// what lies below the square of that. Rounding keeps the order and is the same on both sides of
/// zero. Cosines of moderate angles are off by `2^-24` at most, and that of zero is one. Nothing
/// is said of numbers that stand for no real number, of results beyond `2^128 - 2^104` and of
/// quotients by zero. The integer zero times an integer, and divided by one, is the integer zero.
pub open spec fn is_rounded<N>(m: Model<N>, k: Meaning<N>) -> bool {
    &&& is_exact(k.exact)
    &&& forall|a: N| #[trigger] k.keeps(a)
    &&& forall|a: real, b: real| #[trigger] k.order_rule(a, b)
    &&& forall|a: real| #[trigger] k.mirror_rule(a)
    &&& forall|n: u32| k.rounds(#[trigger] (m.from_int)(n), n as real)
    &&& forall|n: u32|
        n <= 16777216 ==> k.value(#[trigger] (m.from_int)(n)) == n as real
    &&& k.rounding(half()) == half()
    &&& forall|n: u32| #[trigger] zero_rule(m, n)
    &&& k.rounds(m.pi, k.exact.pi)
    &&& 31real / 10real <= k.exact.pi <= 315real / 100real
    &&& forall|a: N, b: N|
        k.finite(a) && k.finite(b) && size(k.value(a) + k.value(b)) <= limit() ==> k.rounds(
            #[trigger] m.plus(a, b),
            k.value(a) + k.value(b),
        )
    &&& forall|a: N, b: N|
        k.finite(a) && k.finite(b) && size(k.value(a) - k.value(b)) <= limit() ==> k.rounds(
            #[trigger] m.minus(a, b),
            k.value(a) - k.value(b),
        )
    &&& forall|a: N, b: N|
        k.finite(a) && k.finite(b) && size(k.value(a) * k.value(b)) <= limit() ==> k.rounds(
            #[trigger] m.times(a, b),
            k.value(a) * k.value(b),
        )
    &&& forall|a: N, b: N|
        k.finite(a) && k.finite(b) && k.value(b) != 0real && size(k.value(a) / k.value(b))
            <= limit() ==> k.rounds(#[trigger] m.over(a, b), k.value(a) / k.value(b))
    &&& forall|a: N|
        k.finite(a) && size(k.value(a)) <= 100real ==> k.finite(#[trigger] m.cos(a)) && size(
            k.value(m.cos(a)) - k.cos(k.value(a)),
        ) <= unit()
    &&& forall|a: N|
        k.finite(a) && k.value(a) == 0real ==> k.value(#[trigger] m.cos(a)) == 1real
    &&& forall|a: real, b: real| #[trigger] k.slope_rule(a, b)
    &&& forall|a: N|
        k.finite(a) ==> k.finite(#[trigger] m.abs(a)) && k.value(m.abs(a)) == size(k.value(a))
    &&& forall|a: N, b: N|
        k.finite(a) && k.finite(b) ==> k.finite(#[trigger] m.larger(a, b)) && k.value(
            m.larger(a, b),
        ) == if k.value(a) < k.value(b) {
            k.value(b)
        } else {
            k.value(a)
        }
    &&& forall|a: N, b: N|
        k.finite(a) && k.finite(b) ==> #[trigger] m.exceeds(a, b) == (k.value(a) > k.value(b))
    &&& forall|a: N, lo: N, hi: N|
        k.finite(a) && k.finite(lo) && k.finite(hi) && k.value(lo) <= k.value(hi) ==> k.finite(
            #[trigger] m.clamp(a, lo, hi),
        ) && k.value(m.clamp(a, lo, hi)) == if k.value(a) < k.value(lo) {
            k.value(lo)
        } else if k.value(a) > k.value(hi) {
            k.value(hi)
        } else {
            k.value(a)
        }
    &&& forall|a: N|
        k.finite(a) && 0real <= k.value(a) <= 4294967295real ==> #[trigger] m.truncate(a) as real
            <= k.value(a) && k.value(a) < m.truncate(a) as real + 1real
    &&& forall|a: N|
        k.finite(a) && k.value(a) < 0real ==> #[trigger] m.round(a) == 0
    &&& forall|a: N|
        k.finite(a) && 0real <= k.value(a) <= 4294967295real ==> k.value(a) - half()
            < #[trigger] m.round(a) as real <= k.value(a) + half()
}

/// What real numbers stand for: themselves.
pub open spec fn themselves(m: Model<real>) -> Meaning<real> {
    Meaning {
        finite: |a: real| true,
        value: |a: real| a,
        rounding: |a: real| a,
        exact: m,
    }
}

/// What holds where results are rounded holds of exact arithmetic, where nothing is lost, if its
/// numbers below zero are rounded to the integer zero, its cosine changes no faster than the
/// angle, and half a turn is what it is.
#[verifier::spinoff_prover]
pub proof fn exact_arithmetic_is_rounded(m: Model<real>)
    requires
        is_exact(m),
        31real / 10real <= m.pi <= 315real / 100real,
        forall|a: real, b: real| #[trigger] themselves(m).slope_rule(a, b),
        forall|a: real| a < 0real ==> #[trigger] m.round(a) == 0,
    ensures
        is_rounded(m, themselves(m)),
{
    let k = themselves(m);
    lemma_unit();
    assert forall|a: real| #[trigger] k.loses_little(a) by {
        assert(0real <= unit() * size(a)) by (nonlinear_arith)
            requires
                unit() == 1real / 16777216real,
        ;
    }
    assert(forall|n: u32| k.loses_little(#[trigger] (m.from_int)(n)));
    assert forall|n: u32| #[trigger] zero_rule(m, n) by {
        let x = (m.from_int)(n);
        assert(0real * x == 0real && (x > 0real ==> 0real / x == 0real)) by (nonlinear_arith);
    }
    assert(k.loses_little(m.pi));
    assert(forall|a: real, b: real| k.loses_little(#[trigger] m.plus(a, b)));
    assert(forall|a: real, b: real| k.loses_little(#[trigger] m.minus(a, b)));
    assert(forall|a: real, b: real| k.loses_little(#[trigger] m.times(a, b)));
    assert(forall|a: real, b: real| k.loses_little(#[trigger] m.over(a, b)));
}

/// `n` millionths.
pub open spec fn micro(n: int) -> real {
    n as real / 1000000real
}

/// Whether `a` stands for a number of magnitude `bound` at most.
pub open spec fn is_bounded<N>(k: Meaning<N>, a: N, bound: real) -> bool {
    k.finite(a) && size(k.value(a)) <= bound
}

/// What products of the unit are.
#[verifier::spinoff_prover]
pub proof fn lemma_unit()
    ensures
        unit() == 1real / 16777216real,
        unit() * unit() == 1real / 281474976710656real,
        unit() * half() == 1real / 33554432real,
{
    assert(unit() * unit() == 1real / 281474976710656real) by (nonlinear_arith)
        requires
            unit() == 1real / 16777216real,
    ;
    assert(unit() * half() == 1real / 33554432real) by (nonlinear_arith)
        requires
            unit() == 1real / 16777216real,
            half() == 1real / 2real,
    ;
}

/// A small integer is exact.
pub proof fn lemma_integer<N>(m: Model<N>, k: Meaning<N>, n: int)
    requires
        is_rounded(m, k),
        0 <= n <= 16777216,
    ensures
        k.finite(m.from_int(n)),
        k.value(m.from_int(n)) == n as real,
{
}

/// What rounds to a small integer is that integer.
pub proof fn lemma_kept_integer<N>(m: Model<N>, k: Meaning<N>, n: int)
    requires
        is_rounded(m, k),
        0 <= n <= 16777216,
    ensures
        k.rounding(n as real) == n as real,
{
    lemma_integer(m, k, n);
    assert(k.keeps(m.from_int(n)));
}

/// One half is not rounded.
pub proof fn lemma_half<N>(m: Model<N>, k: Meaning<N>)
    requires
        is_rounded(m, k),
    ensures
        k.finite(m.ratio(1, 2)),
        k.value(m.ratio(1, 2)) == half(),
{
    lemma_integer(m, k, 1);
    lemma_integer(m, k, 2);
    assert(k.rounds(m.ratio(1, 2), half()));
}

/// What is lost in a product.
#[verifier::spinoff_prover]
pub proof fn lemma_times<N>(m: Model<N>, k: Meaning<N>, a: N, b: N, x: real, y: real)
    requires
        is_rounded(m, k),
        is_bounded(k, a, x),
        is_bounded(k, b, y),
        x * y <= 1000000000real,
    ensures
        k.finite(m.times(a, b)),
        size(k.value(a) * k.value(b)) <= x * y,
        size(k.value(m.times(a, b)) - k.value(a) * k.value(b)) <= unit() * (x * y) + unit()
            * unit(),
{
    let p = k.value(a);
    let q = k.value(b);
    assert(size(p * q) <= x * y) by (nonlinear_arith)
        requires
            size(p) <= x,
            size(q) <= y,
    ;
    let e = size(p * q);
    let xy = x * y;
    assert(unit() * e <= unit() * xy) by (nonlinear_arith)
        requires
            e <= xy,
            unit() == 1real / 16777216real,
    ;
    assert(k.rounds(m.times(a, b), p * q));
}

/// Whether `a` stands for a number that is `x` up to `t`.
pub open spec fn is_near<N>(k: Meaning<N>, a: N, x: real, t: real) -> bool {
    k.finite(a) && size(k.value(a) - x) <= t
}

/// A sum is close to that of the numbers that the summands are close to.
#[verifier::spinoff_prover]
pub proof fn lemma_near_plus<N>(
    m: Model<N>,
    k: Meaning<N>,
    a: N,
    x: real,
    s: real,
    b: N,
    y: real,
    t: real,
)
    requires
        is_rounded(m, k),
        is_near(k, a, x, s),
        is_near(k, b, y, t),
        size(x + y) <= 9real,
        s + t <= 1real,
    ensures
        is_near(k, m.plus(a, b), x + y, s + t + micro(1)),
{
    let exact = k.value(a) + k.value(b);
    lemma_unit();
    assert(k.rounds(m.plus(a, b), exact));
    assert(unit() * size(exact) <= unit() * 10real) by (nonlinear_arith)
        requires
            size(exact) <= 10real,
            unit() == 1real / 16777216real,
    ;
}

/// A difference is close to that of the numbers that its two numbers are close to.
#[verifier::spinoff_prover]
pub proof fn lemma_near_minus<N>(
    m: Model<N>,
    k: Meaning<N>,
    a: N,
    x: real,
    s: real,
    b: N,
    y: real,
    t: real,
)
    requires
        is_rounded(m, k),
        is_near(k, a, x, s),
        is_near(k, b, y, t),
        size(x - y) <= 9real,
        s + t <= 1real,
    ensures
        is_near(k, m.minus(a, b), x - y, s + t + micro(1)),
{
    let exact = k.value(a) - k.value(b);
    lemma_unit();
    assert(k.rounds(m.minus(a, b), exact));
    assert(unit() * size(exact) <= unit() * 10real) by (nonlinear_arith)
        requires
            size(exact) <= 10real,
            unit() == 1real / 16777216real,
    ;
}

/// A product of a number of magnitude three at most with one of magnitude one at most.
#[verifier::spinoff_prover]
pub proof fn lemma_near_times<N>(
    m: Model<N>,
    k: Meaning<N>,
    a: N,
    x: real,
    s: real,
    b: N,
    y: real,
    t: real,
)
    requires
        is_rounded(m, k),
        is_near(k, a, x, s),
        is_near(k, b, y, t),
        size(x) <= 3real,
        size(y) <= 1real,
        0real <= s <= half(),
        0real <= t <= half(),
    ensures
        is_near(k, m.times(a, b), x * y, s + 4real * t + micro(1)),
{
    let p = k.value(a);
    let q = k.value(b);
    lemma_unit();
    lemma_times(m, k, a, b, 4real, 2real);
    assert(size(p * q - x * y) <= s + 4real * t) by (nonlinear_arith)
        requires
            size(p - x) <= s,
            size(q - y) <= t,
            size(p) <= 4real,
            size(y) <= 1real,
    {
        assert(p * q - x * y == p * (q - y) + (p - x) * y);
        assert(size(p * (q - y)) <= 4real * t);
        assert(size((p - x) * y) <= s);
    }
}

} // verus!
