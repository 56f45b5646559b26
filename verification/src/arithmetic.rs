//! The arithmetic that the signal path computes with.
//!
//! The library is written over an abstract sample type `T` and leaves the
//! arithmetic on it to the host: a host that streams machine reals hands in
//! their `+`, `*`, `sqrt` and so on.  Every operation comes in two halves, an
//! executable one and the mathematical function that it is to compute.  No
//! operation promises anything by itself; [`exact`] and [`exact_analysis`] say
//! that each one computes its function, and the functions of the library that
//! do arithmetic ask for that.

use vstd::prelude::*;

verus! {

/// Ordered arithmetic on `T`.
pub trait Arithmetic<T> {
    /// The value that stands for the whole number `n`.
    open spec fn num(&self, n: u64) -> T {
        choose|r: T| call_ensures(Self::number, (self, n), r)
    }

    /// `a + b`.
    open spec fn plus(&self, a: T, b: T) -> T {
        choose|r: T| call_ensures(Self::sum, (self, a, b), r)
    }

    /// `a - b`.
    open spec fn minus(&self, a: T, b: T) -> T {
        choose|r: T| call_ensures(Self::difference, (self, a, b), r)
    }

    /// `a * b`.
    open spec fn times(&self, a: T, b: T) -> T {
        choose|r: T| call_ensures(Self::product, (self, a, b), r)
    }

    /// `a / b`.
    open spec fn over(&self, a: T, b: T) -> T {
        choose|r: T| call_ensures(Self::quotient, (self, a, b), r)
    }

    /// `a < b`.
    open spec fn below(&self, a: T, b: T) -> bool {
        choose|r: bool| call_ensures(Self::less, (self, a, b), r)
    }

    /// `a >= b`, which for incomparable values is not the negation of `a < b`.
    open spec fn reaches(&self, a: T, b: T) -> bool {
        choose|r: bool| call_ensures(Self::at_least, (self, a, b), r)
    }

    /// `a` without its fraction, as an index.
    open spec fn whole(&self, a: T) -> usize {
        choose|r: usize| call_ensures(Self::truncate, (self, a), r)
    }

    fn number(&self, n: u64) -> T;

    fn sum(&self, a: T, b: T) -> T;

    fn difference(&self, a: T, b: T) -> T;

    fn product(&self, a: T, b: T) -> T;

    fn quotient(&self, a: T, b: T) -> T;

    fn less(&self, a: T, b: T) -> bool;

    fn at_least(&self, a: T, b: T) -> bool;

    fn truncate(&self, a: T) -> usize;
}

/// The operations of spectral analysis.
pub trait Analysis<T>: Arithmetic<T> {
    /// The square root of `a`.
    open spec fn root(&self, a: T) -> T {
        choose|r: T| call_ensures(Self::sqrt, (self, a), r)
    }

    /// The natural logarithm of `a`.
    open spec fn log(&self, a: T) -> T {
        choose|r: T| call_ensures(Self::ln, (self, a), r)
    }

    /// `a` to the power `b`.
    open spec fn raised(&self, a: T, b: T) -> T {
        choose|r: T| call_ensures(Self::power, (self, a, b), r)
    }

    /// The cosine of the angle `a` in radians.
    open spec fn cosine(&self, a: T) -> T {
        choose|r: T| call_ensures(Self::cos, (self, a), r)
    }

    /// The circle constant.
    open spec fn half_turn(&self) -> T {
        choose|r: T| call_ensures(Self::pi, (self,), r)
    }

    /// The natural logarithm of ten.
    open spec fn log_ten(&self) -> T {
        choose|r: T| call_ensures(Self::ln_10, (self,), r)
    }

    /// The discrete Fourier transform of a real frame: real and imaginary part
    /// of every bin.
    open spec fn spectrum(&self, frame: Seq<T>) -> Seq<(T, T)> {
        let (_, r) = choose|v: Vec<T>, r: Vec<(T, T)>|
            v@ == frame && #[trigger] call_ensures(Self::transform, (self, &v), r);
        r@
    }

    fn sqrt(&self, a: T) -> T;

    fn ln(&self, a: T) -> T;

    fn power(&self, a: T, b: T) -> T;

    fn cos(&self, a: T) -> T;

    fn pi(&self) -> T;

    fn ln_10(&self) -> T;

    fn transform(&self, frame: &Vec<T>) -> Vec<(T, T)>;
}

/// A conversion from a wide number type to the sample type.
pub trait Narrowing<D, T> {
    /// `a` as a sample.
    open spec fn narrowed(&self, a: D) -> T {
        choose|r: T| call_ensures(Self::narrow, (self, a), r)
    }

    fn narrow(&self, a: D) -> T;
}

/// Every operation of `k` computes its function.
pub open spec fn exact<T, K: Arithmetic<T>>(k: K) -> bool {
    &&& forall|n: u64, r: T| #[trigger]
        call_ensures(K::number, (&k, n), r) ==> r == k.num(n)
    &&& forall|a: T, b: T, r: T| #[trigger]
        call_ensures(K::sum, (&k, a, b), r) ==> r == k.plus(a, b)
    &&& forall|a: T, b: T, r: T| #[trigger]
        call_ensures(K::difference, (&k, a, b), r) ==> r == k.minus(a, b)
    &&& forall|a: T, b: T, r: T| #[trigger]
        call_ensures(K::product, (&k, a, b), r) ==> r == k.times(a, b)
    &&& forall|a: T, b: T, r: T| #[trigger]
        call_ensures(K::quotient, (&k, a, b), r) ==> r == k.over(a, b)
    &&& forall|a: T, b: T, r: bool| #[trigger]
        call_ensures(K::less, (&k, a, b), r) ==> r == k.below(a, b)
    &&& forall|a: T, b: T, r: bool| #[trigger]
        call_ensures(K::at_least, (&k, a, b), r) ==> r == k.reaches(a, b)
    &&& forall|a: T, r: usize| #[trigger]
        call_ensures(K::truncate, (&k, a), r) ==> r == k.whole(a)
}

/// Every operation of `k` computes its function, and a transform has a bin for
/// every sample of the frame.
pub open spec fn exact_analysis<T, K: Analysis<T>>(k: K) -> bool {
    &&& exact::<T, K>(k)
    &&& forall|a: T, r: T| #[trigger]
        call_ensures(K::sqrt, (&k, a), r) ==> r == k.root(a)
    &&& forall|a: T, r: T| #[trigger]
        call_ensures(K::ln, (&k, a), r) ==> r == k.log(a)
    &&& forall|a: T, b: T, r: T| #[trigger]
        call_ensures(K::power, (&k, a, b), r) ==> r == k.raised(a, b)
    &&& forall|a: T, r: T| #[trigger]
        call_ensures(K::cos, (&k, a), r) ==> r == k.cosine(a)
    &&& forall|r: T| #[trigger] call_ensures(K::pi, (&k,), r) ==> r == k.half_turn()
    &&& forall|r: T| #[trigger] call_ensures(K::ln_10, (&k,), r) ==> r == k.log_ten()
    &&& forall|frame: &Vec<T>, r: Vec<(T, T)>| #[trigger]
        call_ensures(K::transform, (&k, frame), r) ==> r@ == k.spectrum(frame@) && r@.len()
            == frame@.len()
}

/// The conversion computes its function.
pub open spec fn exact_narrowing<D, T, K: Narrowing<D, T>>(k: K) -> bool {
    forall|a: D, r: T| #[trigger] call_ensures(K::narrow, (&k, a), r) ==> r == k.narrowed(a)
}

/// The value that stands for `n` thousandths.
pub open spec fn per_mille<T, K: Arithmetic<T>>(k: K, n: u32) -> T {
    k.over(k.num(n as u64), k.num(1000))
}

/// The larger of `a` and `b`.  A value that does not compare, not even with
/// itself, is passed over for the other.
pub open spec fn larger<T, K: Arithmetic<T>>(k: K, a: T, b: T) -> T {
    if k.below(a, b) || !k.reaches(a, a) {
        b
    } else {
        a
    }
}

/// Whether a value lies between two others.
pub open spec fn between<T, K: Arithmetic<T>>(k: K, low: T, a: T, high: T) -> bool {
    k.reaches(a, low) && k.reaches(high, a)
}

/// The sum of `terms`, added up from zero in their order.
pub open spec fn total<T, K: Arithmetic<T>>(k: K, terms: Seq<T>) -> T
    decreases terms.len(),
{
    if terms.len() == 0 {
        k.num(0)
    } else {
        k.plus(total(k, terms.drop_last()), terms.last())
    }
}

/// The products of the values at the same places of `a` and `b`.
pub open spec fn products<T, K: Arithmetic<T>>(k: K, a: Seq<T>, b: Seq<T>) -> Seq<T> {
    Seq::new(a.len(), |i: int| k.times(a[i], b[i]))
}

/// The sum of the products of the values at the same places of `a` and `b`.
pub open spec fn inner_product<T, K: Arithmetic<T>>(k: K, a: Seq<T>, b: Seq<T>) -> T {
    total(k, products(k, a, b))
}

/// The sum of the squares of `s`.
pub open spec fn energy<T, K: Arithmetic<T>>(k: K, s: Seq<T>) -> T {
    inner_product(k, s, s)
}

/// Arithmetic without rounding: `value` gives every `a` of `T` a real number, and
/// each operation computes what its name says on these.  A quotient is looked at
/// where the divisor is not 0, and a whole part where it is an index.
pub open spec fn faithful<T, K: Arithmetic<T>>(k: K, value: spec_fn(T) -> real) -> bool {
    &&& forall|n: u64| value(#[trigger] k.num(n)) == n as real
    &&& forall|a: T, b: T| value(#[trigger] k.plus(a, b)) == value(a) + value(b)
    &&& forall|a: T, b: T| value(#[trigger] k.minus(a, b)) == value(a) - value(b)
    &&& forall|a: T, b: T| value(#[trigger] k.times(a, b)) == value(a) * value(b)
    &&& forall|a: T, b: T|
        value(b) != 0 as real ==> value(#[trigger] k.over(a, b)) == value(a) / value(b)
    &&& forall|a: T, b: T| #[trigger] k.below(a, b) <==> value(a) < value(b)
    &&& forall|a: T, b: T| #[trigger] k.reaches(a, b) <==> value(a) >= value(b)
    &&& forall|a: T|
        0 as real <= value(a) <= usize::MAX as real ==> #[trigger] k.whole(a) as real <= value(a)
            && value(a) < k.whole(a) as real + 1 as real
}

/// What analysis without rounding is held against: the natural logarithm, the cosine
/// and the circle constant.
pub struct Reals {
    pub ln: spec_fn(real) -> real,
    pub cos: spec_fn(real) -> real,
    pub pi: real,
}

/// The logarithm of a product is the sum of the logarithms.
pub open spec fn ln_adds(m: Reals, x: real, y: real) -> bool {
    x > 0 as real && y > 0 as real ==> (m.ln)(x * y) == (m.ln)(x) + (m.ln)(y)
}

/// The logarithm rises.
pub open spec fn ln_rises(m: Reals, x: real, y: real) -> bool {
    x > 0 as real && x < y ==> (m.ln)(x) < (m.ln)(y)
}

/// The cosine is the same to both sides, changes its sign with half a turn and stays
/// between -1 and 1.
pub open spec fn cos_turns(m: Reals, x: real) -> bool {
    &&& (m.cos)(-x) == (m.cos)(x)
    &&& (m.cos)(x + m.pi) == -(m.cos)(x)
    &&& -(1 as real) <= (m.cos)(x) <= 1 as real
}

/// The root of a value that is not below 0 is not below 0 and squares to the value.
pub open spec fn root_squares<T, K: Analysis<T>>(k: K, value: spec_fn(T) -> real, a: T) -> bool {
    value(a) >= 0 as real ==> value(k.root(a)) >= 0 as real && value(k.root(a)) * value(k.root(a))
        == value(a)
}

/// The logarithm of a power is the exponent times the logarithm of the base.
pub open spec fn power_grows<T, K: Analysis<T>>(
    k: K,
    value: spec_fn(T) -> real,
    m: Reals,
    a: T,
    b: T,
) -> bool {
    value(a) > 0 as real ==> value(k.raised(a, b)) > 0 as real && (m.ln)(value(k.raised(a, b)))
        == value(b) * (m.ln)(value(a))
}

/// Analysis without rounding: roots, logarithms, powers and cosines are what their names
/// say.
pub open spec fn faithful_analysis<T, K: Analysis<T>>(
    k: K,
    value: spec_fn(T) -> real,
    m: Reals,
) -> bool {
    &&& faithful(k, value)
    &&& forall|a: T| #[trigger] root_squares(k, value, a)
    &&& forall|a: T| value(a) > 0 as real ==> value(#[trigger] k.log(a)) == (m.ln)(value(a))
    &&& forall|a: T, b: T| #[trigger] power_grows(k, value, m, a, b)
    &&& forall|a: T| value(#[trigger] k.cosine(a)) == (m.cos)(value(a))
    &&& value(k.half_turn()) == m.pi
    &&& value(k.log_ten()) == (m.ln)(10 as real)
    &&& forall|x: real, y: real| #[trigger] ln_adds(m, x, y)
    &&& forall|x: real, y: real| #[trigger] ln_rises(m, x, y)
    &&& (m.cos)(0 as real) == 1 as real
    &&& forall|x: real| #[trigger] cos_turns(m, x)
}

/// A quotient times its divisor.
pub proof fn lemma_over_times(a: real, b: real)
    by (nonlinear_arith)
    requires
        b != 0 as real,
    ensures
        a / b * b == a,
{
}

/// What has the same product with a number that is not 0 is the same.
pub proof fn lemma_cancel(x: real, y: real, b: real)
    by (nonlinear_arith)
    requires
        b != 0 as real,
        x * b == y * b,
    ensures
        x == y,
{
}

/// The sum of the products of the values at the same places of `a` and `b`.
pub open spec fn product_sum<T>(value: spec_fn(T) -> real, a: Seq<T>, b: Seq<T>) -> real
    decreases a.len(),
{
    if a.len() == 0 {
        0 as real
    } else {
        product_sum(value, a.drop_last(), b.drop_last()) + value(a.last()) * value(b.last())
    }
}

/// Without rounding, an inner product is the sum of products.
pub proof fn lemma_inner_product_value<T, K: Arithmetic<T>>(
    k: K,
    value: spec_fn(T) -> real,
    a: Seq<T>,
    b: Seq<T>,
)
    requires
        faithful(k, value),
        a.len() == b.len(),
    ensures
        value(inner_product(k, a, b)) == product_sum(value, a, b),
    decreases a.len(),
{
    let terms = products(k, a, b);
    if a.len() > 0 {
        lemma_inner_product_value(k, value, a.drop_last(), b.drop_last());
        assert(terms.drop_last() =~= products(k, a.drop_last(), b.drop_last()));
    }
}

/// Sums of products over two parts of a sequence add up to that over the whole.
pub proof fn lemma_product_sum_joins<T>(value: spec_fn(T) -> real, a: Seq<T>, b: Seq<T>)
    ensures
        product_sum(value, a + b, a + b) == product_sum(value, a, a) + product_sum(value, b, b),
    decreases b.len(),
{
    if b.len() == 0 {
        assert(a + b =~= a);
    } else {
        lemma_product_sum_joins(value, a, b.drop_last());
        assert((a + b).drop_last() =~= a + b.drop_last());
    }
}

/// A sum of squares is not below 0.
pub proof fn lemma_squares_sum_up<T>(value: spec_fn(T) -> real, a: Seq<T>)
    ensures
        product_sum(value, a, a) >= 0 as real,
    decreases a.len(),
{
    if a.len() > 0 {
        lemma_squares_sum_up(value, a.drop_last());
        let x = value(a.last());
        assert(x * x >= 0 as real) by (nonlinear_arith);
    }
}

/// `n` thousandths.
pub fn thousandths<T, K: Arithmetic<T>>(k: &K, n: u32) -> (r: T)
    requires
        exact::<T, K>(*k),
    ensures
        r == per_mille::<T, K>(*k, n),
{
    let numerator = k.number(n as u64);
    let denominator = k.number(1000);
    k.quotient(numerator, denominator)
}

/// The larger of two values, of which one that does not compare is passed over.
pub fn maximum<T: Copy, K: Arithmetic<T>>(k: &K, a: T, b: T) -> (r: T)
    requires
        exact::<T, K>(*k),
    ensures
        r == larger(*k, a, b),
{
    if k.less(a, b) || !k.at_least(a, a) {
        b
    } else {
        a
    }
}

/// The sum of the products of the values at the same places of two sequences of
/// one length.
pub fn dot<T: Copy, K: Arithmetic<T>>(k: &K, a: &[T], b: &[T]) -> (r: T)
    requires
        exact::<T, K>(*k),
        a@.len() == b@.len(),
    ensures
        r == inner_product(*k, a@, b@),
{
    let mut acc = k.number(0);
    let mut i: usize = 0;
    let ghost terms = products(*k, a@, b@);
    assert(terms.take(0) =~= Seq::empty());
    while i < a.len()
        invariant
            exact::<T, K>(*k),
            a@.len() == b@.len(),
            i <= a@.len(),
            terms == products(*k, a@, b@),
            acc == total(*k, terms.take(i as int)),
        decreases a@.len() - i,
    {
        assert(terms.take(i + 1).drop_last() =~= terms.take(i as int));
        acc = k.sum(acc, k.product(a[i], b[i]));
        i += 1;
    }
    assert(terms.take(i as int) =~= terms);
    acc
}

} // verus!
