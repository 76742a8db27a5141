//! Arithmetic on double-precision bit patterns, and the statistics built on it.
//!
//! The operations come from the caller. Nothing is assumed of them: every
//! contract says which operations were applied to which values, for whatever
//! results they gave.
use vstd::prelude::*;

use crate::doubles::{is_finite, is_nan, rank, ONE};

verus! {

/// Operations on double-precision numbers that are given as bit patterns.
pub trait Arithmetic {
    /// The discrete Fourier transform of a window.
    type Spectrum;

    /// The number `n`.
    fn number(&self, n: usize) -> u64;

    /// `x - y`.
    fn minus(&self, x: u64, y: u64) -> u64;

    /// `x * y`.
    fn times(&self, x: u64, y: u64) -> u64;

    /// `x / y`.
    fn over(&self, x: u64, y: u64) -> u64;

    /// The square root of `x`.
    fn root(&self, x: u64) -> u64;

    /// The sum of `values`, added from the first to the last.
    fn sum(&self, values: &[u64]) -> u64;

    /// The forward transform of `window`: as many bins as the window has values.
    fn transform(&self, window: &[u64]) -> Self::Spectrum;

    /// The absolute value of the transform at `bin`.
    fn magnitude(&self, spectrum: &Self::Spectrum, bin: usize) -> u64;

    /// `x` as text for reading.
    fn display(&self, x: u64) -> String;

    /// `x` as text for debugging.
    fn debug(&self, x: u64) -> String;
}

/// `r` is what `number` gave for `n`.
pub open spec fn is_number<A: Arithmetic>(a: A, n: usize, r: u64) -> bool {
    call_ensures(A::number, (&a, n), r)
}

/// `r` is what `minus` gave for `x` and `y`.
pub open spec fn is_minus<A: Arithmetic>(a: A, x: u64, y: u64, r: u64) -> bool {
    call_ensures(A::minus, (&a, x, y), r)
}

/// `r` is what `times` gave for `x` and `y`.
pub open spec fn is_times<A: Arithmetic>(a: A, x: u64, y: u64, r: u64) -> bool {
    call_ensures(A::times, (&a, x, y), r)
}

/// `r` is what `over` gave for `x` and `y`.
pub open spec fn is_over<A: Arithmetic>(a: A, x: u64, y: u64, r: u64) -> bool {
    call_ensures(A::over, (&a, x, y), r)
}

/// `r` is what `root` gave for `x`.
pub open spec fn is_root<A: Arithmetic>(a: A, x: u64, r: u64) -> bool {
    call_ensures(A::root, (&a, x), r)
}

/// `r` is what `sum` gave for `values`.
pub open spec fn is_sum<A: Arithmetic>(a: A, values: Seq<u64>, r: u64) -> bool {
    exists|w: &[u64]| w@ == values && #[trigger] call_ensures(A::sum, (&a, w), r)
}

/// `spectrum` is what `transform` gave for `window`.
pub open spec fn is_transform<A: Arithmetic>(
    a: A,
    window: Seq<u64>,
    spectrum: A::Spectrum,
) -> bool {
    exists|w: &[u64]| w@ == window && #[trigger] call_ensures(A::transform, (&a, w), spectrum)
}

/// `r` is what `magnitude` gave for `spectrum` at `bin`.
pub open spec fn is_magnitude<A: Arithmetic>(
    a: A,
    spectrum: A::Spectrum,
    bin: usize,
    r: u64,
) -> bool {
    call_ensures(A::magnitude, (&a, &spectrum, bin), r)
}

/// `r` is what `display` gave for `x`.
pub open spec fn is_display<A: Arithmetic>(a: A, x: u64, r: Seq<char>) -> bool {
    exists|s: String| s@ == r && #[trigger] call_ensures(A::display, (&a, x), s)
}

/// `r` is what `debug` gave for `x`.
pub open spec fn is_debug<A: Arithmetic>(a: A, x: u64, r: Seq<char>) -> bool {
    exists|s: String| s@ == r && #[trigger] call_ensures(A::debug, (&a, x), s)
}

/// `r` is `(x - low) / (high - low)`.
pub open spec fn is_scaled<A: Arithmetic>(a: A, x: u64, low: u64, high: u64, r: u64) -> bool {
    exists|offset: u64, span: u64| #[trigger]
        is_minus(a, x, low, offset) && #[trigger] is_minus(a, high, low, span) && is_over(
            a,
            offset,
            span,
            r,
        )
}

/// `r` is the sum of `values` over their number.
pub open spec fn is_mean<A: Arithmetic>(a: A, values: Seq<u64>, r: u64) -> bool {
    exists|total: u64, count: u64| #[trigger]
        is_sum(a, values, total) && #[trigger] is_number(a, values.len() as usize, count)
            && is_over(a, total, count, r)
}

/// `r` is the square of `x - center`.
pub open spec fn is_squared_offset<A: Arithmetic>(a: A, x: u64, center: u64, r: u64) -> bool {
    exists|offset: u64| #[trigger] is_minus(a, x, center, offset) && is_times(a, offset, offset, r)
}

/// Each of `squares` is the square of how far the value in its place lies from `center`.
pub open spec fn are_squared_offsets<A: Arithmetic>(
    a: A,
    values: Seq<u64>,
    center: u64,
    squares: Seq<u64>,
) -> bool {
    &&& squares.len() == values.len()
    &&& forall|i: int|
        0 <= i < values.len() ==> is_squared_offset(a, values[i], center, #[trigger] squares[i])
}

/// `r` is the standard deviation of `values`, taken over all of them.
pub open spec fn is_deviation<A: Arithmetic>(a: A, values: Seq<u64>, r: u64) -> bool {
    exists|center: u64, squares: Seq<u64>, variance: u64| #[trigger]
        is_mean(a, values, center) && #[trigger] are_squared_offsets(a, values, center, squares)
            && #[trigger] is_mean(a, squares, variance) && is_root(a, variance, r)
}

/// `magnitudes` are the absolute values of `spectrum` at the bins 1, 2, and so
/// on up to half the window's length.
pub open spec fn are_magnitudes<A: Arithmetic>(
    a: A,
    length: nat,
    spectrum: A::Spectrum,
    magnitudes: Seq<u64>,
) -> bool {
    &&& magnitudes.len() == length / 2
    &&& forall|i: int|
        0 <= i < length / 2 ==> is_magnitude(
            a,
            spectrum,
            (i + 1) as usize,
            #[trigger] magnitudes[i],
        )
}

/// `magnitudes` are those of the positive frequencies of `window`: what is left
/// of its transform without the constant part and the mirrored half.
pub open spec fn are_positive_frequencies<A: Arithmetic>(
    a: A,
    window: Seq<u64>,
    magnitudes: Seq<u64>,
) -> bool {
    exists|spectrum: A::Spectrum| #[trigger]
        is_transform(a, window, spectrum) && are_magnitudes(a, window.len(), spectrum, magnitudes)
}

/// `r` is the standard deviation of the positive frequencies' magnitudes in `window`.
pub open spec fn is_fft_deviation<A: Arithmetic>(a: A, window: Seq<u64>, r: u64) -> bool {
    exists|magnitudes: Seq<u64>| #[trigger]
        are_positive_frequencies(a, window, magnitudes) && is_deviation(a, magnitudes, r)
}

/// `(x - low) / (high - low)`.
pub fn scale<A: Arithmetic>(a: &A, x: u64, low: u64, high: u64) -> (r: u64)
    ensures
        is_scaled(*a, x, low, high, r),
{
    let offset: u64 = a.minus(x, low);
    let span: u64 = a.minus(high, low);
    let r: u64 = a.over(offset, span);
    assert(is_minus(*a, x, low, offset) && is_minus(*a, high, low, span));
    r
}

/// The mean of `values`.
pub fn mean<A: Arithmetic>(a: &A, values: &[u64]) -> (r: u64)
    ensures
        is_mean(*a, values@, r),
{
    let total: u64 = a.sum(values);
    let count: u64 = a.number(values.len());
    let r: u64 = a.over(total, count);
    assert(is_sum(*a, values@, total) && is_number(*a, values@.len() as usize, count));
    r
}

/// The standard deviation of `values`, taken over all of them.
pub fn deviation<A: Arithmetic>(a: &A, values: &[u64]) -> (r: u64)
    ensures
        is_deviation(*a, values@, r),
{
    let center: u64 = mean(a, values);
    let mut squares: Vec<u64> = Vec::new();
    let mut i: usize = 0;
    while i < values.len()
        invariant
            i <= values@.len(),
            are_squared_offsets(*a, values@.take(i as int), center, squares@),
        decreases values@.len() - i,
    {
        let offset: u64 = a.minus(values[i], center);
        let square: u64 = a.times(offset, offset);
        assert(is_minus(*a, values@[i as int], center, offset));
        squares.push(square);
        i = i + 1;
    }
    assert(values@.take(i as int) =~= values@);
    let variance: u64 = mean(a, squares.as_slice());
    let r: u64 = a.root(variance);
    assert(is_mean(*a, squares@, variance));
    r
}

/// The magnitudes of the positive frequencies of `window`.
pub fn positive_frequencies<A: Arithmetic>(a: &A, window: &[u64]) -> (magnitudes: Vec<u64>)
    ensures
        are_positive_frequencies(*a, window@, magnitudes@),
{
    let spectrum = a.transform(window);
    assert(is_transform(*a, window@, spectrum));
    let half: usize = window.len() / 2;
    let mut magnitudes: Vec<u64> = Vec::new();
    let mut bin: usize = 1;
    while bin <= half
        invariant
            half == window@.len() / 2,
            half < usize::MAX,
            1 <= bin <= half + 1,
            magnitudes@.len() == bin - 1,
            forall|i: int|
                0 <= i < bin - 1 ==> is_magnitude(
                    *a,
                    spectrum,
                    (i + 1) as usize,
                    #[trigger] magnitudes@[i],
                ),
        decreases half + 1 - bin,
    {
        let m: u64 = a.magnitude(&spectrum, bin);
        magnitudes.push(m);
        bin = bin + 1;
    }
    magnitudes
}

/// The standard deviation of the positive frequencies' magnitudes in `window`.
pub fn fft_deviation<A: Arithmetic>(a: &A, window: &[u64]) -> (r: u64)
    ensures
        is_fft_deviation(*a, window@, r),
{
    let magnitudes = positive_frequencies(a, window);
    deviation(a, magnitudes.as_slice())
}

/// Whether equal arguments give equal results.
pub open spec fn is_consistent<A: Arithmetic>(a: A) -> bool {
    &&& forall|n: usize, r: u64, q: u64| #[trigger]
        is_number(a, n, r) && #[trigger] is_number(a, n, q) ==> r == q
    &&& forall|x: u64, y: u64, r: u64, q: u64| #[trigger]
        is_minus(a, x, y, r) && #[trigger] is_minus(a, x, y, q) ==> r == q
    &&& forall|x: u64, y: u64, r: u64, q: u64| #[trigger]
        is_times(a, x, y, r) && #[trigger] is_times(a, x, y, q) ==> r == q
    &&& forall|x: u64, y: u64, r: u64, q: u64| #[trigger]
        is_over(a, x, y, r) && #[trigger] is_over(a, x, y, q) ==> r == q
    &&& forall|x: u64, r: u64, q: u64| #[trigger]
        is_root(a, x, r) && #[trigger] is_root(a, x, q) ==> r == q
    &&& forall|values: Seq<u64>, r: u64, q: u64| #[trigger]
        is_sum(a, values, r) && #[trigger] is_sum(a, values, q) ==> r == q
    &&& forall|window: Seq<u64>, s: A::Spectrum, t: A::Spectrum, bin: usize, r: u64, q: u64|
        #![trigger
            is_transform(a, window, s),
            is_transform(a, window, t),
            is_magnitude(a, s, bin, r),
            is_magnitude(a, t, bin, q)]
        is_transform(a, window, s) && is_transform(a, window, t) && is_magnitude(a, s, bin, r)
            && is_magnitude(a, t, bin, q) ==> r == q
}

/// Whether differences and quotients keep the order of numbers, as they do where
/// results are rounded to the nearest number: equal numbers differ by zero and the
/// greater exceeds the smaller, more is left of the greater number, taking away
/// zero and dividing by one change nothing, and a positive number over itself is
/// one, over a greater one at most one.
pub open spec fn keeps_order<A: Arithmetic>(a: A) -> bool {
    &&& forall|x: u64, y: u64, r: u64| #[trigger]
        is_minus(a, x, y, r) && is_finite(x) && is_finite(y) ==> {
            &&& !is_nan(r)
            &&& rank(x) == rank(y) ==> rank(r) == 0
            &&& rank(x) > rank(y) ==> rank(r) > 0
            &&& rank(y) == 0 ==> rank(r) == rank(x)
        }
    &&& forall|x: u64, z: u64, y: u64, r: u64, q: u64| #[trigger]
        is_minus(a, x, y, r) && #[trigger] is_minus(a, z, y, q) && is_finite(x) && is_finite(z)
            && is_finite(y) && rank(x) <= rank(z) ==> rank(r) <= rank(q)
    &&& forall|x: u64, y: u64, r: u64| #[trigger]
        is_over(a, x, y, r) && is_finite(x) && is_finite(y) && rank(x) >= 0 && rank(y) > 0 ==> {
            &&& !is_nan(r)
            &&& rank(r) >= 0
            &&& rank(x) == 0 ==> rank(r) == 0
            &&& rank(x) <= rank(y) ==> rank(r) <= rank(ONE)
            &&& rank(x) == rank(y) ==> rank(r) == rank(ONE)
            &&& rank(y) == rank(ONE) ==> rank(r) == rank(x)
        }
}

/// A value is scaled to one value only, where equal arguments give equal results.
pub proof fn one_scaled_value<A: Arithmetic>(a: A, x: u64, low: u64, high: u64, r: u64, q: u64)
    requires
        is_consistent(a),
        is_scaled(a, x, low, high, r),
        is_scaled(a, x, low, high, q),
    ensures
        r == q,
{
}

/// Values have one mean only, where equal arguments give equal results.
pub proof fn one_mean<A: Arithmetic>(a: A, values: Seq<u64>, r: u64, q: u64)
    requires
        is_consistent(a),
        is_mean(a, values, r),
        is_mean(a, values, q),
    ensures
        r == q,
{
}

/// Values have one deviation only, where equal arguments give equal results.
pub proof fn one_deviation<A: Arithmetic>(a: A, values: Seq<u64>, r: u64, q: u64)
    requires
        is_consistent(a),
        is_deviation(a, values, r),
        is_deviation(a, values, q),
    ensures
        r == q,
{
    let (c, s, v) = choose|c: u64, s: Seq<u64>, v: u64| #[trigger]
        is_mean(a, values, c) && #[trigger] are_squared_offsets(a, values, c, s) && #[trigger]
            is_mean(a, s, v) && is_root(a, v, r);
    let (d, t, w) = choose|d: u64, t: Seq<u64>, w: u64| #[trigger]
        is_mean(a, values, d) && #[trigger] are_squared_offsets(a, values, d, t) && #[trigger]
            is_mean(a, t, w) && is_root(a, w, q);
    one_mean(a, values, c, d);
    assert forall|i: int| 0 <= i < values.len() implies #[trigger] s[i] == t[i] by {
        assert(is_squared_offset(a, values[i], c, s[i]));
        assert(is_squared_offset(a, values[i], c, t[i]));
    }
    assert(s =~= t);
    one_mean(a, s, v, w);
}

/// A window has one deviation of frequencies only, where equal arguments give
/// equal results.
pub proof fn one_fft_deviation<A: Arithmetic>(a: A, window: Seq<u64>, r: u64, q: u64)
    requires
        is_consistent(a),
        is_fft_deviation(a, window, r),
        is_fft_deviation(a, window, q),
    ensures
        r == q,
{
    let m = choose|m: Seq<u64>| #[trigger]
        are_positive_frequencies(a, window, m) && is_deviation(a, m, r);
    let n = choose|n: Seq<u64>| #[trigger]
        are_positive_frequencies(a, window, n) && is_deviation(a, n, q);
    let s = choose|s: A::Spectrum| #[trigger]
        is_transform(a, window, s) && are_magnitudes(a, window.len(), s, m);
    let t = choose|t: A::Spectrum| #[trigger]
        is_transform(a, window, t) && are_magnitudes(a, window.len(), t, n);
    assert forall|i: int| 0 <= i < m.len() implies #[trigger] m[i] == n[i] by {
        assert(is_magnitude(a, s, (i + 1) as usize, m[i]));
        assert(is_magnitude(a, t, (i + 1) as usize, n[i]));
    }
    assert(m =~= n);
    one_deviation(a, m, r, q);
}

/// A finite value between two others is scaled to a number between zero and one:
/// to zero where it equals the lower, and to one where it equals the upper.
pub proof fn scaled_between_zero_and_one<A: Arithmetic>(a: A, x: u64, low: u64, high: u64, r: u64)
    requires
        keeps_order(a),
        is_finite(x) && is_finite(low) && is_finite(high),
        rank(low) <= rank(x) <= rank(high),
        rank(low) < rank(high),
        forall|span: u64| #[trigger] is_minus(a, high, low, span) ==> is_finite(span),
        is_scaled(a, x, low, high, r),
    ensures
        !is_nan(r),
        0 <= rank(r) <= rank(ONE),
        rank(x) == rank(low) ==> rank(r) == 0,
        rank(x) == rank(high) ==> rank(r) == rank(ONE),
{
}

/// What the operations of an arithmetic give, where they give the same every time.
pub struct Operations {
    pub number: spec_fn(usize) -> u64,
    pub minus: spec_fn(u64, u64) -> u64,
    pub times: spec_fn(u64, u64) -> u64,
    pub over: spec_fn(u64, u64) -> u64,
    pub root: spec_fn(u64) -> u64,
    pub sum: spec_fn(Seq<u64>) -> u64,
    /// The magnitude at a bin of the transform of a window.
    pub frequency: spec_fn(Seq<u64>, usize) -> u64,
}

/// Whether each operation of `a` gives what `f` says and nothing else.
pub open spec fn computes<A: Arithmetic>(a: A, f: Operations) -> bool {
    &&& forall|n: usize, r: u64| #[trigger]
        call_ensures(A::number, (&a, n), r) ==> r == (f.number)(n)
    &&& forall|x: u64, y: u64, r: u64| #[trigger]
        call_ensures(A::minus, (&a, x, y), r) ==> r == (f.minus)(x, y)
    &&& forall|x: u64, y: u64, r: u64| #[trigger]
        call_ensures(A::times, (&a, x, y), r) ==> r == (f.times)(x, y)
    &&& forall|x: u64, y: u64, r: u64| #[trigger]
        call_ensures(A::over, (&a, x, y), r) ==> r == (f.over)(x, y)
    &&& forall|x: u64, r: u64| #[trigger] call_ensures(A::root, (&a, x), r) ==> r == (f.root)(x)
    &&& forall|w: &[u64], r: u64| #[trigger]
        call_ensures(A::sum, (&a, w), r) ==> r == (f.sum)(w@)
    &&& forall|w: &[u64], s: A::Spectrum, bin: usize, r: u64| #[trigger]
        call_ensures(A::transform, (&a, w), s) && #[trigger] call_ensures(
            A::magnitude,
            (&a, &s, bin),
            r,
        ) ==> r == (f.frequency)(w@, bin)
}

/// A value is scaled to its distance from the lower extreme over the distance between
/// the extremes, wherever it lies between, below or above them.
pub proof fn scaling_divides_distances<A: Arithmetic>(
    a: A,
    f: Operations,
    x: u64,
    low: u64,
    high: u64,
    r: u64,
)
    requires
        computes(a, f),
        call_ensures(scale::<A>, (&a, x, low, high), r),
    ensures
        r == (f.over)((f.minus)(x, low), (f.minus)(high, low)),
{
    scaled_by(a, f, x, low, high, r);
}

/// What it is to be scaled.
pub proof fn scaled_by<A: Arithmetic>(
    a: A,
    f: Operations,
    x: u64,
    low: u64,
    high: u64,
    r: u64,
)
    requires
        computes(a, f),
        is_scaled(a, x, low, high, r),
    ensures
        r == (f.over)((f.minus)(x, low), (f.minus)(high, low)),
{
    let (offset, span) = choose|offset: u64, span: u64| #[trigger]
        is_minus(a, x, low, offset) && #[trigger] is_minus(a, high, low, span) && is_over(
            a,
            offset,
            span,
            r,
        );
    assert(call_ensures(A::minus, (&a, x, low), offset));
    assert(call_ensures(A::minus, (&a, high, low), span));
    assert(call_ensures(A::over, (&a, offset, span), r));
}

/// Every quotient of the two distances may be what a value is scaled to, and nothing
/// else may.
pub proof fn scaled_values_are_quotients<A: Arithmetic>(
    a: A,
    x: u64,
    low: u64,
    high: u64,
    r: u64,
)
    ensures
        is_scaled(a, x, low, high, r) <==> exists|offset: u64, span: u64| #[trigger]
            call_ensures(A::minus, (&a, x, low), offset) && #[trigger] call_ensures(
                A::minus,
                (&a, high, low),
                span,
            ) && call_ensures(A::over, (&a, offset, span), r),
{
    if is_scaled(a, x, low, high, r) {
        let (offset, span) = choose|offset: u64, span: u64| #[trigger]
            is_minus(a, x, low, offset) && #[trigger] is_minus(a, high, low, span) && is_over(
                a,
                offset,
                span,
                r,
            );
        assert(call_ensures(A::minus, (&a, x, low), offset));
        assert(call_ensures(A::minus, (&a, high, low), span));
        assert(call_ensures(A::over, (&a, offset, span), r));
    }
    if exists|offset: u64, span: u64| #[trigger]
        call_ensures(A::minus, (&a, x, low), offset) && #[trigger] call_ensures(
            A::minus,
            (&a, high, low),
            span,
        ) && call_ensures(A::over, (&a, offset, span), r) {
        let (offset, span) = choose|offset: u64, span: u64| #[trigger]
            call_ensures(A::minus, (&a, x, low), offset) && #[trigger] call_ensures(
                A::minus,
                (&a, high, low),
                span,
            ) && call_ensures(A::over, (&a, offset, span), r);
        assert(is_minus(a, x, low, offset) && is_minus(a, high, low, span));
    }
}

/// Two values that lie equally far from the lower of extremes equally far apart are
/// scaled to the same: scaling goes by distances alone.
pub proof fn scaling_goes_by_distances<A: Arithmetic>(
    a: A,
    x: u64,
    low: u64,
    high: u64,
    y: u64,
    other_low: u64,
    other_high: u64,
    r: u64,
)
    requires
        forall|d: u64| #[trigger]
            call_ensures(A::minus, (&a, x, low), d) == call_ensures(
                A::minus,
                (&a, y, other_low),
                d,
            ),
        forall|d: u64| #[trigger]
            call_ensures(A::minus, (&a, high, low), d) == call_ensures(
                A::minus,
                (&a, other_high, other_low),
                d,
            ),
        is_scaled(a, x, low, high, r),
    ensures
        is_scaled(a, y, other_low, other_high, r),
{
    let (offset, span) = choose|offset: u64, span: u64| #[trigger]
        is_minus(a, x, low, offset) && #[trigger] is_minus(a, high, low, span) && is_over(
            a,
            offset,
            span,
            r,
        );
    assert(call_ensures(A::minus, (&a, x, low), offset));
    assert(call_ensures(A::minus, (&a, high, low), span));
    assert(is_minus(a, y, other_low, offset));
    assert(is_minus(a, other_high, other_low, span));
}

/// The mean of values is their sum over their number.
pub proof fn mean_divides_sum<A: Arithmetic>(a: A, f: Operations, values: &[u64], r: u64)
    requires
        computes(a, f),
        call_ensures(mean::<A>, (&a, values), r),
    ensures
        r == (f.over)((f.sum)(values@), (f.number)(values@.len() as usize)),
{
    mean_by(a, f, values@, r);
}

/// What it is to be the mean.
pub proof fn mean_by<A: Arithmetic>(a: A, f: Operations, values: Seq<u64>, r: u64)
    requires
        computes(a, f),
        is_mean(a, values, r),
    ensures
        r == (f.over)((f.sum)(values), (f.number)(values.len() as usize)),
{
    let (total, count) = choose|total: u64, count: u64| #[trigger]
        is_sum(a, values, total) && #[trigger] is_number(a, values.len() as usize, count)
            && is_over(a, total, count, r);
    let w = choose|w: &[u64]| w@ == values && #[trigger] call_ensures(A::sum, (&a, w), total);
    assert(call_ensures(A::sum, (&a, w), total));
    assert(call_ensures(A::number, (&a, values.len() as usize), count));
    assert(call_ensures(A::over, (&a, total, count), r));
}

/// The mean goes by the sum and the number of values alone: values that are as many
/// and have the same sum have the same mean, in whichever order they stand.
pub proof fn mean_goes_by_sum_and_number<A: Arithmetic>(
    a: A,
    values: Seq<u64>,
    others: Seq<u64>,
    r: u64,
)
    requires
        values.len() == others.len(),
        forall|v: &[u64], total: u64|
            v@ == values && #[trigger] call_ensures(A::sum, (&a, v), total) ==> exists|w: &[u64]|
                w@ == others && #[trigger] call_ensures(A::sum, (&a, w), total),
        is_mean(a, values, r),
    ensures
        is_mean(a, others, r),
{
    let (total, count) = choose|total: u64, count: u64| #[trigger]
        is_sum(a, values, total) && #[trigger] is_number(a, values.len() as usize, count)
            && is_over(a, total, count, r);
    let v = choose|v: &[u64]| v@ == values && #[trigger] call_ensures(A::sum, (&a, v), total);
    let w = choose|w: &[u64]| w@ == others && #[trigger] call_ensures(A::sum, (&a, w), total);
    assert(is_sum(a, others, total));
    assert(is_number(a, others.len() as usize, count));
}

/// The standard deviation of values is the root of the mean of the squares of their
/// distances from their mean.
pub proof fn deviation_is_root_of_mean_square<A: Arithmetic>(
    a: A,
    f: Operations,
    values: &[u64],
    r: u64,
)
    requires
        computes(a, f),
        call_ensures(deviation::<A>, (&a, values), r),
    ensures
        ({
            let count = (f.number)(values@.len() as usize);
            let center = (f.over)((f.sum)(values@), count);
            let squares = Seq::new(
                values@.len(),
                |i: int|
                    (f.times)((f.minus)(values@[i], center), (f.minus)(values@[i], center)),
            );
            r == (f.root)((f.over)((f.sum)(squares), count))
        }),
{
    deviation_by(a, f, values@, r);
}

/// What it is to be the standard deviation.
pub proof fn deviation_by<A: Arithmetic>(a: A, f: Operations, values: Seq<u64>, r: u64)
    requires
        computes(a, f),
        is_deviation(a, values, r),
    ensures
        ({
            let count = (f.number)(values.len() as usize);
            let center = (f.over)((f.sum)(values), count);
            let squares = Seq::new(
                values.len(),
                |i: int|
                    (f.times)((f.minus)(values[i], center), (f.minus)(values[i], center)),
            );
            r == (f.root)((f.over)((f.sum)(squares), count))
        }),
{
    let (c, s, v) = choose|c: u64, s: Seq<u64>, v: u64| #[trigger]
        is_mean(a, values, c) && #[trigger] are_squared_offsets(a, values, c, s) && #[trigger]
            is_mean(a, s, v) && is_root(a, v, r);
    mean_by(a, f, values, c);
    mean_by(a, f, s, v);
    let squares = Seq::new(
        values.len(),
        |i: int| (f.times)((f.minus)(values[i], c), (f.minus)(values[i], c)),
    );
    assert forall|i: int| 0 <= i < values.len() implies #[trigger] s[i] == squares[i] by {
        assert(is_squared_offset(a, values[i], c, s[i]));
        let offset = choose|offset: u64| #[trigger]
            is_minus(a, values[i], c, offset) && is_times(a, offset, offset, s[i]);
        assert(call_ensures(A::minus, (&a, values[i], c), offset));
        assert(call_ensures(A::times, (&a, offset, offset), s[i]));
    }
    assert(s =~= squares);
    assert(call_ensures(A::root, (&a, v), r));
}

/// The positive frequencies of a window are the bins of its transform from the first
/// behind the constant part up to half of the window's length, in this order.
pub proof fn frequencies_are_the_first_half<A: Arithmetic>(
    a: A,
    f: Operations,
    window: &[u64],
    magnitudes: Vec<u64>,
)
    requires
        computes(a, f),
        call_ensures(positive_frequencies::<A>, (&a, window), magnitudes),
    ensures
        magnitudes@.len() == window@.len() / 2,
        forall|bin: usize|
            1 <= bin <= window@.len() / 2 ==> magnitudes@[bin - 1] == #[trigger] (f.frequency)(
                window@,
                bin,
            ),
{
    assert(window.len() == window@.len());
    frequencies_by(a, f, window@, magnitudes@);
}

/// What it is to be the positive frequencies.
pub proof fn frequencies_by<A: Arithmetic>(
    a: A,
    f: Operations,
    window: Seq<u64>,
    magnitudes: Seq<u64>,
)
    requires
        computes(a, f),
        are_positive_frequencies(a, window, magnitudes),
        window.len() <= usize::MAX,
    ensures
        magnitudes == Seq::new(
            window.len() / 2,
            |i: int| (f.frequency)(window, (i + 1) as usize),
        ),
        magnitudes.len() == window.len() / 2,
        forall|bin: usize|
            1 <= bin <= window.len() / 2 ==> magnitudes[bin - 1] == #[trigger] (f.frequency)(
                window,
                bin,
            ),
{
    let s = choose|s: A::Spectrum| #[trigger]
        is_transform(a, window, s) && are_magnitudes(a, window.len(), s, magnitudes);
    let w = choose|w: &[u64]| w@ == window && #[trigger] call_ensures(A::transform, (&a, w), s);
    assert forall|i: int| 0 <= i < window.len() / 2 implies #[trigger] magnitudes[i]
        == (f.frequency)(window, (i + 1) as usize) by {
        assert(is_magnitude(a, s, (i + 1) as usize, magnitudes[i]));
        assert(call_ensures(A::transform, (&a, w), s));
        assert(call_ensures(A::magnitude, (&a, &s, (i + 1) as usize), magnitudes[i]));
    }
    assert(magnitudes =~= Seq::new(
        window.len() / 2,
        |i: int| (f.frequency)(window, (i + 1) as usize),
    ));
    assert forall|bin: usize| 1 <= bin <= window.len() / 2 implies magnitudes[bin - 1]
        == #[trigger] (f.frequency)(window, bin) by {
        assert(magnitudes[bin - 1] == (f.frequency)(window, (bin - 1 + 1) as usize));
    }
}

/// The frequency deviation of a window is the standard deviation of the magnitudes of
/// its transform at the bins 1, 2, and so on up to half of the window's length.
pub proof fn fft_deviation_spreads_frequencies<A: Arithmetic>(
    a: A,
    f: Operations,
    window: &[u64],
    r: u64,
)
    requires
        computes(a, f),
        call_ensures(fft_deviation::<A>, (&a, window), r),
    ensures
        ({
            let bins = Seq::new(
                window@.len() / 2,
                |i: int| (f.frequency)(window@, (i + 1) as usize),
            );
            let count = (f.number)(bins.len() as usize);
            let center = (f.over)((f.sum)(bins), count);
            let squares = Seq::new(
                bins.len(),
                |i: int| (f.times)((f.minus)(bins[i], center), (f.minus)(bins[i], center)),
            );
            r == (f.root)((f.over)((f.sum)(squares), count))
        }),
{
    assert(window.len() == window@.len());
    fft_deviation_by(a, f, window@, r);
}

/// What it is to be the frequency deviation.
pub proof fn fft_deviation_by<A: Arithmetic>(a: A, f: Operations, window: Seq<u64>, r: u64)
    requires
        computes(a, f),
        is_fft_deviation(a, window, r),
        window.len() <= usize::MAX,
    ensures
        ({
            let bins = Seq::new(
                window.len() / 2,
                |i: int| (f.frequency)(window, (i + 1) as usize),
            );
            let count = (f.number)(bins.len() as usize);
            let center = (f.over)((f.sum)(bins), count);
            let squares = Seq::new(
                bins.len(),
                |i: int| (f.times)((f.minus)(bins[i], center), (f.minus)(bins[i], center)),
            );
            r == (f.root)((f.over)((f.sum)(squares), count))
        }),
{
    let m = choose|m: Seq<u64>| #[trigger]
        are_positive_frequencies(a, window, m) && is_deviation(a, m, r);
    frequencies_by(a, f, window, m);
    deviation_by(a, f, m, r);
}

} // verus!
