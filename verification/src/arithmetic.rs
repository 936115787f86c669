//! The numbers that samples and coefficients are computed with.
use vstd::prelude::*;

verus! {

/// The operations that the transforms need of their numbers.
///
/// Nothing is assumed of an implementation: the codec is verified for whatever these
/// functions compute. [`Model`] and [`describes`] say what they compute, where each of them is a
/// function: where it gives the same number whenever it is called with the same numbers.
pub trait Arithmetic {
    /// A number.
    type Num: Copy;

    /// The number `n`.
    fn from_int(n: u32) -> Self::Num;

    /// The ratio of a circle's circumference to its diameter.
    fn pi() -> Self::Num;

    /// `a + b`
    fn plus(a: Self::Num, b: Self::Num) -> Self::Num;

    /// `a - b`
    fn minus(a: Self::Num, b: Self::Num) -> Self::Num;

    /// `a * b`
    fn times(a: Self::Num, b: Self::Num) -> Self::Num;

    /// `a / b`. Division by zero is asked for too, where an image has an empty side, and has to
    /// give some number.
    fn over(a: Self::Num, b: Self::Num) -> Self::Num;

    /// The cosine of `a` radians.
    fn cos(a: Self::Num) -> Self::Num;

    /// The absolute value of `a`.
    fn abs(a: Self::Num) -> Self::Num;

    /// The larger of `a` and `b`.
    fn larger(a: Self::Num, b: Self::Num) -> Self::Num;

    /// The number in `lo..=hi` that is closest to `a`.
    fn clamp(a: Self::Num, lo: Self::Num, hi: Self::Num) -> Self::Num;

    /// Whether `a` is greater than `b`.
    fn exceeds(a: Self::Num, b: Self::Num) -> bool;

    /// The integer closest to `a`, halves away from zero, brought into the range of `u32`.
    fn round(a: Self::Num) -> u32;

    /// The integer part of `a`, brought into the range of `u32`.
    fn truncate(a: Self::Num) -> u32;
}

/// The functions that an arithmetic computes, one field for each of its operations.
#[verifier::reject_recursive_types(N)]
pub struct Model<N> {
    pub from_int: spec_fn(u32) -> N,
    pub pi: N,
    pub plus: spec_fn(N, N) -> N,
    pub minus: spec_fn(N, N) -> N,
    pub times: spec_fn(N, N) -> N,
    pub over: spec_fn(N, N) -> N,
    pub cos: spec_fn(N) -> N,
    pub abs: spec_fn(N) -> N,
    pub larger: spec_fn(N, N) -> N,
    pub clamp: spec_fn(N, N, N) -> N,
    pub exceeds: spec_fn(N, N) -> bool,
    pub round: spec_fn(N) -> u32,
    pub truncate: spec_fn(N) -> u32,
}

impl<N> Model<N> {
    #[verifier::inline]
    pub open spec fn from_int(self, n: int) -> N {
        (self.from_int)(n as u32)
    }

    #[verifier::inline]
    pub open spec fn plus(self, a: N, b: N) -> N {
        (self.plus)(a, b)
    }

    #[verifier::inline]
    pub open spec fn minus(self, a: N, b: N) -> N {
        (self.minus)(a, b)
    }

    #[verifier::inline]
    pub open spec fn times(self, a: N, b: N) -> N {
        (self.times)(a, b)
    }

    #[verifier::inline]
    pub open spec fn over(self, a: N, b: N) -> N {
        (self.over)(a, b)
    }

    #[verifier::inline]
    pub open spec fn cos(self, a: N) -> N {
        (self.cos)(a)
    }

    #[verifier::inline]
    pub open spec fn abs(self, a: N) -> N {
        (self.abs)(a)
    }

    #[verifier::inline]
    pub open spec fn larger(self, a: N, b: N) -> N {
        (self.larger)(a, b)
    }

    #[verifier::inline]
    pub open spec fn clamp(self, a: N, lo: N, hi: N) -> N {
        (self.clamp)(a, lo, hi)
    }

    #[verifier::inline]
    pub open spec fn exceeds(self, a: N, b: N) -> bool {
        (self.exceeds)(a, b)
    }

    #[verifier::inline]
    pub open spec fn round(self, a: N) -> u32 {
        (self.round)(a)
    }

    #[verifier::inline]
    pub open spec fn truncate(self, a: N) -> u32 {
        (self.truncate)(a)
    }

    /// The quotient of two small integers.
    pub open spec fn ratio(self, a: int, b: int) -> N {
        self.over(self.from_int(a), self.from_int(b))
    }
}

/// Whether every result that an operation of `A` can give is the one that `m` names for its
/// arguments. An arithmetic one of whose operations is no function of its arguments is described
/// by no model, and what contracts state for every model that describes it does not reach it;
/// what they state of lengths, sizes and failures does.
pub open spec fn describes<A: Arithmetic>(m: Model<A::Num>) -> bool {
    &&& forall|n: u32, r: A::Num| #[trigger]
        call_ensures(A::from_int, (n,), r) ==> r == (m.from_int)(n)
    &&& forall|r: A::Num| #[trigger] call_ensures(A::pi, (), r) ==> r == m.pi
    &&& forall|a: A::Num, b: A::Num, r: A::Num| #[trigger]
        call_ensures(A::plus, (a, b), r) ==> r == (m.plus)(a, b)
    &&& forall|a: A::Num, b: A::Num, r: A::Num| #[trigger]
        call_ensures(A::minus, (a, b), r) ==> r == (m.minus)(a, b)
    &&& forall|a: A::Num, b: A::Num, r: A::Num| #[trigger]
        call_ensures(A::times, (a, b), r) ==> r == (m.times)(a, b)
    &&& forall|a: A::Num, b: A::Num, r: A::Num| #[trigger]
        call_ensures(A::over, (a, b), r) ==> r == (m.over)(a, b)
    &&& forall|a: A::Num, r: A::Num| #[trigger]
        call_ensures(A::cos, (a,), r) ==> r == (m.cos)(a)
    &&& forall|a: A::Num, r: A::Num| #[trigger]
        call_ensures(A::abs, (a,), r) ==> r == (m.abs)(a)
    &&& forall|a: A::Num, b: A::Num, r: A::Num| #[trigger]
        call_ensures(A::larger, (a, b), r) ==> r == (m.larger)(a, b)
    &&& forall|a: A::Num, lo: A::Num, hi: A::Num, r: A::Num| #[trigger]
        call_ensures(A::clamp, (a, lo, hi), r) ==> r == (m.clamp)(a, lo, hi)
    &&& forall|a: A::Num, b: A::Num, r: bool| #[trigger]
        call_ensures(A::exceeds, (a, b), r) ==> r == (m.exceeds)(a, b)
    &&& forall|a: A::Num, r: u32| #[trigger]
        call_ensures(A::round, (a,), r) ==> r == (m.round)(a)
    &&& forall|a: A::Num, r: u32| #[trigger]
        call_ensures(A::truncate, (a,), r) ==> r == (m.truncate)(a)
}

/// The quotient of two small integers.
pub fn ratio<A: Arithmetic>(a: u32, b: u32) -> (r: A::Num)
    ensures
        forall|m: Model<A::Num>| #[trigger] describes::<A>(m) ==> r == m.ratio(a as int, b as int),
{
    let num = A::from_int(a);
    let den = A::from_int(b);
    A::over(num, den)
}

} // verus!
