//! Double-precision numbers as bit patterns: which patterns are numbers, how
//! numbers are ordered, and the smaller and the larger of two.
use vstd::arithmetic::power2::{
    lemma_pow2_pos, lemma_pow2_strictly_increases, lemma_pow2_unfold, pow2,
};
use vstd::prelude::*;

verus! {

/// The sign bit of a pattern.
pub const SIGN: u64 = 0x8000_0000_0000_0000;

/// The pattern of positive infinity; every greater magnitude is no number.
pub const INFINITY: u64 = 0x7FF0_0000_0000_0000;

/// The pattern of `0.0`.
pub const ZERO: u64 = 0;

/// The pattern of `0.5`.
pub const HALF: u64 = 0x3FE0_0000_0000_0000;

/// The pattern of `1.0`.
pub const ONE: u64 = 0x3FF0_0000_0000_0000;

/// The pattern of the largest finite number.
pub const LARGEST: u64 = 0x7FEF_FFFF_FFFF_FFFF;

/// The pattern of the smallest finite number, the negation of [`LARGEST`].
pub const SMALLEST: u64 = 0xFFEF_FFFF_FFFF_FFFF;

/// The pattern without its sign bit.
pub open spec fn magnitude(x: u64) -> int {
    if x < SIGN {
        x as int
    } else {
        x - SIGN
    }
}

/// Whether the pattern stands for no number.
pub open spec fn is_nan(x: u64) -> bool {
    magnitude(x) > INFINITY
}

/// Whether the pattern stands for a finite number.
pub open spec fn is_finite(x: u64) -> bool {
    magnitude(x) < INFINITY
}

/// The place of a number among all numbers: `x` is less than `y` exactly where
/// `rank(x) < rank(y)`. Both zeros have the place 0.
pub open spec fn rank(x: u64) -> int {
    if x < SIGN {
        magnitude(x)
    } else {
        -magnitude(x)
    }
}

/// The smaller of two numbers, or the number where one of the two is none. Of
/// two equal numbers, the first.
pub open spec fn smaller(x: u64, y: u64) -> u64 {
    if is_nan(x) {
        y
    } else if is_nan(y) {
        x
    } else if rank(y) < rank(x) {
        y
    } else {
        x
    }
}

/// The larger of two numbers, or the number where one of the two is none. Of
/// two equal numbers, the first.
pub open spec fn larger(x: u64, y: u64) -> u64 {
    if is_nan(x) {
        y
    } else if is_nan(y) {
        x
    } else if rank(y) > rank(x) {
        y
    } else {
        x
    }
}

/// The smallest of `values` and [`LARGEST`].
pub open spec fn lowest(values: Seq<u64>) -> u64
    decreases values.len(),
{
    if values.len() == 0 {
        LARGEST
    } else {
        smaller(lowest(values.drop_last()), values.last())
    }
}

/// The largest of `values` and [`SMALLEST`].
pub open spec fn highest(values: Seq<u64>) -> u64
    decreases values.len(),
{
    if values.len() == 0 {
        SMALLEST
    } else {
        larger(highest(values.drop_last()), values.last())
    }
}

/// Whether the pattern stands for no number.
pub fn not_a_number(x: u64) -> (b: bool)
    ensures
        b == is_nan(x),
{
    if x < SIGN {
        x > INFINITY
    } else {
        x - SIGN > INFINITY
    }
}

/// Whether `x` and `y` are numbers and `x` is less than `y`.
pub fn less(x: u64, y: u64) -> (b: bool)
    ensures
        b == (!is_nan(x) && !is_nan(y) && rank(x) < rank(y)),
{
    if not_a_number(x) || not_a_number(y) {
        false
    } else if x < SIGN {
        y < SIGN && x < y
    } else if y < SIGN {
        x > SIGN || y > 0
    } else {
        y < x
    }
}

/// The smaller of two numbers.
pub fn min(x: u64, y: u64) -> (r: u64)
    ensures
        r == smaller(x, y),
{
    if not_a_number(x) || less(y, x) {
        y
    } else {
        x
    }
}

/// The larger of two numbers.
pub fn max(x: u64, y: u64) -> (r: u64)
    ensures
        r == larger(x, y),
{
    if not_a_number(x) || less(x, y) {
        y
    } else {
        x
    }
}

/// The smallest of `values` and [`LARGEST`].
pub fn min_of(values: &Vec<u64>) -> (r: u64)
    ensures
        r == lowest(values@),
{
    let mut r: u64 = LARGEST;
    let mut i: usize = 0;
    while i < values.len()
        invariant
            i <= values@.len(),
            r == lowest(values@.take(i as int)),
        decreases values@.len() - i,
    {
        r = min(r, values[i]);
        i = i + 1;
        assert(values@.take(i as int).drop_last() =~= values@.take(i - 1));
    }
    assert(values@.take(i as int) =~= values@);
    r
}

/// The largest of `values` and [`SMALLEST`].
pub fn max_of(values: &Vec<u64>) -> (r: u64)
    ensures
        r == highest(values@),
{
    let mut r: u64 = SMALLEST;
    let mut i: usize = 0;
    while i < values.len()
        invariant
            i <= values@.len(),
            r == highest(values@.take(i as int)),
        decreases values@.len() - i,
    {
        r = max(r, values[i]);
        i = i + 1;
        assert(values@.take(i as int).drop_last() =~= values@.take(i - 1));
    }
    assert(values@.take(i as int) =~= values@);
    r
}

/// The lowest of some values is a number that none of the numbers among them
/// is below, and it is one of them or [`LARGEST`].
pub proof fn lowest_bounds(values: Seq<u64>)
    ensures
        !is_nan(lowest(values)),
        rank(lowest(values)) <= rank(LARGEST),
        forall|i: int|
            0 <= i < values.len() && !is_nan(#[trigger] values[i]) ==> rank(lowest(values)) <= rank(
                values[i],
            ),
        lowest(values) == LARGEST || values.contains(lowest(values)),
    decreases values.len(),
{
    if values.len() > 0 {
        let rest = values.drop_last();
        lowest_bounds(rest);
        assert forall|i: int| 0 <= i < values.len() && !is_nan(#[trigger] values[i]) implies rank(
            lowest(values),
        ) <= rank(values[i]) by {
            if i < rest.len() {
                assert(rest[i] == values[i]);
            }
        }
        if lowest(values) == values.last() {
            assert(values[values.len() - 1] == lowest(values));
        } else if lowest(values) != LARGEST {
            let i = choose|i: int| 0 <= i < rest.len() && rest[i] == lowest(rest);
            assert(values[i] == lowest(values));
        }
    }
}

/// The highest of some values is a number that none of the numbers among them
/// is above, and it is one of them or [`SMALLEST`].
pub proof fn highest_bounds(values: Seq<u64>)
    ensures
        !is_nan(highest(values)),
        rank(highest(values)) >= rank(SMALLEST),
        forall|i: int|
            0 <= i < values.len() && !is_nan(#[trigger] values[i]) ==> rank(highest(values))
                >= rank(values[i]),
        highest(values) == SMALLEST || values.contains(highest(values)),
    decreases values.len(),
{
    if values.len() > 0 {
        let rest = values.drop_last();
        highest_bounds(rest);
        assert forall|i: int| 0 <= i < values.len() && !is_nan(#[trigger] values[i]) implies rank(
            highest(values),
        ) >= rank(values[i]) by {
            if i < rest.len() {
                assert(rest[i] == values[i]);
            }
        }
        if highest(values) == values.last() {
            assert(values[values.len() - 1] == highest(values));
        } else if highest(values) != SMALLEST {
            let i = choose|i: int| 0 <= i < rest.len() && rest[i] == highest(rest);
            assert(values[i] == highest(values));
        }
    }
}

/// A finite value that no value is below has the place of the lowest, and one that
/// no value is above has the place of the highest.
pub proof fn extremes_are_at(values: Seq<u64>, i: int, j: int)
    requires
        0 <= i < values.len(),
        0 <= j < values.len(),
        is_finite(values[i]),
        is_finite(values[j]),
        forall|k: int|
            0 <= k < values.len() ==> !is_nan(#[trigger] values[k]) && rank(values[i]) <= rank(
                values[k],
            ) <= rank(values[j]),
    ensures
        rank(lowest(values)) == rank(values[i]),
        rank(highest(values)) == rank(values[j]),
{
    lowest_bounds(values);
    highest_bounds(values);
    assert(!is_nan(values[i]) && !is_nan(values[j]));
}

/// The eleven bits of a pattern behind its sign bit.
pub open spec fn exponent_bits(x: u64) -> nat {
    (x as nat / 0x10_0000_0000_0000) % 0x800
}

/// The lowest fifty-two bits of a pattern.
pub open spec fn fraction_bits(x: u64) -> nat {
    x as nat % 0x10_0000_0000_0000
}

/// The number for which a pattern stands, in units of the least positive number, which
/// is 2 to the power of -1074. The fraction counts these units where the exponent is
/// zero. Otherwise it has another bit in front, and each step of the exponent doubles
/// the unit. The infinities stand where the next power of two would.
pub open spec fn exact(x: u64) -> int {
    let size = if exponent_bits(x) == 0 {
        fraction_bits(x)
    } else {
        (0x10_0000_0000_0000 + fraction_bits(x)) * pow2((exponent_bits(x) - 1) as nat)
    };
    if x as nat / 0x8000_0000_0000_0000 == 0 {
        size as int
    } else {
        -size
    }
}

/// Whether a pattern stands for a number: its exponent bits are not all set, or it is
/// an infinity, with no bit of the fraction set.
pub open spec fn is_numeric(x: u64) -> bool {
    exponent_bits(x) < 0x7FF || fraction_bits(x) == 0
}

/// Of two patterns without a sign, the greater stands for the greater number.
proof fn patterns_grow(p: u64, q: u64)
    requires
        p < q < 0x8000_0000_0000_0000,
    ensures
        0 <= exact(p) < exact(q),
{
    let e = exponent_bits(p);
    let f = exponent_bits(q);
    let m = fraction_bits(p);
    let n = fraction_bits(q);
    let b: int = 0x10_0000_0000_0000;
    assert(p == e * b + m && q == f * b + n);
    let u = if e == 0 {
        1
    } else {
        pow2((e - 1) as nat)
    };
    if e > 0 {
        lemma_pow2_pos((e - 1) as nat);
    }
    if f > 0 {
        lemma_pow2_pos((f - 1) as nat);
    }
    if e == f {
        assert(m < n);
        if e > 0 {
            assert((b + m) * u < (b + n) * u) by (nonlinear_arith)
                requires
                    m < n,
                    u > 0,
            ;
            assert(0 <= (b + m) * u) by (nonlinear_arith)
                requires
                    u > 0,
                    b > 0,
                    m >= 0,
            ;
        }
    } else {
        assert(e < f);
        let v = pow2((f - 1) as nat);
        assert(b * v <= (b + n) * v) by (nonlinear_arith)
            requires
                n >= 0,
                v > 0,
        ;
        if e == 0 {
            assert(b <= b * v) by (nonlinear_arith)
                requires
                    v >= 1,
                    b > 0,
            ;
        } else {
            lemma_pow2_unfold(e);
            assert(pow2(e) == 2 * u);
            if e < f - 1 {
                lemma_pow2_strictly_increases(e, (f - 1) as nat);
            }
            assert(v >= 2 * u);
            assert((b + m) * u < b * v) by (nonlinear_arith)
                requires
                    m < b,
                    m >= 0,
                    u > 0,
                    v >= 2 * u,
            ;
            assert(0 <= (b + m) * u) by (nonlinear_arith)
                requires
                    u > 0,
                    b > 0,
                    m >= 0,
            ;
        }
    }
}

/// A pattern with the sign bit stands for the negative of the one without.
proof fn signs_negate(x: u64)
    ensures
        x >= 0x8000_0000_0000_0000 ==> exact(x) == -exact((x - 0x8000_0000_0000_0000) as u64),
        is_numeric(x) == !is_nan(x),
{
    if x >= 0x8000_0000_0000_0000 {
        let y = (x - 0x8000_0000_0000_0000) as u64;
        assert(exponent_bits(x) == exponent_bits(y));
        assert(fraction_bits(x) == fraction_bits(y));
    }
}

/// Places are ordered as the numbers are.
proof fn places_follow_numbers(x: u64, y: u64)
    ensures
        rank(x) < rank(y) <==> exact(x) < exact(y),
        rank(x) == rank(y) <==> exact(x) == exact(y),
{
    let p = magnitude(x) as u64;
    let q = magnitude(y) as u64;
    signs_negate(x);
    signs_negate(y);
    assert(exact(0) == 0);
    if p < q {
        patterns_grow(p, q);
    }
    if q < p {
        patterns_grow(q, p);
    }
    if 0 < p {
        patterns_grow(0, p);
    }
    if 0 < q {
        patterns_grow(0, q);
    }
}

/// A pattern is told apart as no number exactly where it stands for none.
pub proof fn numbers_are_told_apart(x: u64, b: bool)
    requires
        call_ensures(not_a_number, (x,), b),
    ensures
        b == !is_numeric(x),
{
    signs_negate(x);
}

/// Patterns compare as the numbers for which they stand. What stands for no number is
/// neither less nor greater than anything.
pub proof fn less_compares_numbers(x: u64, y: u64, b: bool)
    requires
        call_ensures(less, (x, y), b),
    ensures
        b == (is_numeric(x) && is_numeric(y) && exact(x) < exact(y)),
{
    signs_negate(x);
    signs_negate(y);
    places_follow_numbers(x, y);
}

/// The smaller of two numbers is one of the two and not above either. Beside what is
/// no number, the number wins.
pub proof fn min_is_the_lesser(x: u64, y: u64, r: u64)
    requires
        call_ensures(min, (x, y), r),
    ensures
        r == x || r == y,
        is_numeric(x) && is_numeric(y) ==> exact(r) <= exact(x) && exact(r) <= exact(y),
        !is_numeric(x) ==> r == y,
        !is_numeric(y) && is_numeric(x) ==> r == x,
{
    signs_negate(x);
    signs_negate(y);
    places_follow_numbers(x, y);
    places_follow_numbers(y, x);
}

/// The larger of two numbers is one of the two and not below either. Beside what is
/// no number, the number wins.
pub proof fn max_is_the_greater(x: u64, y: u64, r: u64)
    requires
        call_ensures(max, (x, y), r),
    ensures
        r == x || r == y,
        is_numeric(x) && is_numeric(y) ==> exact(r) >= exact(x) && exact(r) >= exact(y),
        !is_numeric(x) ==> r == y,
        !is_numeric(y) && is_numeric(x) ==> r == x,
{
    signs_negate(x);
    signs_negate(y);
    places_follow_numbers(x, y);
    places_follow_numbers(y, x);
}

/// Whether `r` is the least number among `values` and the largest finite number: none
/// of the numbers among them is below it, and it is one of them.
pub open spec fn is_least(values: Seq<u64>, r: u64) -> bool {
    &&& is_numeric(r)
    &&& exact(r) <= exact(0x7FEF_FFFF_FFFF_FFFF)
    &&& r == 0x7FEF_FFFF_FFFF_FFFF || values.contains(r)
    &&& forall|i: int|
        0 <= i < values.len() && is_numeric(#[trigger] values[i]) ==> exact(r) <= exact(values[i])
}

/// Whether `r` is the greatest number among `values` and the smallest finite number:
/// none of the numbers among them is above it, and it is one of them.
pub open spec fn is_greatest(values: Seq<u64>, r: u64) -> bool {
    &&& is_numeric(r)
    &&& exact(r) >= exact(0xFFEF_FFFF_FFFF_FFFF)
    &&& r == 0xFFEF_FFFF_FFFF_FFFF || values.contains(r)
    &&& forall|i: int|
        0 <= i < values.len() && is_numeric(#[trigger] values[i]) ==> exact(r) >= exact(values[i])
}

/// The lowest of some values is their least number, and the highest their greatest.
pub proof fn lowest_and_highest_are_extreme(values: Seq<u64>)
    ensures
        is_least(values, lowest(values)),
        is_greatest(values, highest(values)),
{
    lowest_bounds(values);
    highest_bounds(values);
    let low = lowest(values);
    let high = highest(values);
    signs_negate(low);
    signs_negate(high);
    places_follow_numbers(LARGEST, low);
    places_follow_numbers(high, SMALLEST);
    assert forall|i: int| 0 <= i < values.len() && is_numeric(#[trigger] values[i]) implies exact(
        low,
    ) <= exact(values[i]) <= exact(high) by {
        signs_negate(values[i]);
        places_follow_numbers(values[i], low);
        places_follow_numbers(high, values[i]);
    }
}

/// The smallest of values is the least number among them.
pub proof fn min_of_is_least(values: Vec<u64>, r: u64)
    requires
        call_ensures(min_of, (&values,), r),
    ensures
        is_least(values@, r),
{
    lowest_and_highest_are_extreme(values@);
}

/// The largest of values is the greatest number among them.
pub proof fn max_of_is_greatest(values: Vec<u64>, r: u64)
    requires
        call_ensures(max_of, (&values,), r),
    ensures
        is_greatest(values@, r),
{
    lowest_and_highest_are_extreme(values@);
}

/// The smaller of two is one of the two and not above the numbers among them, and the
/// larger is one of the two and not below the numbers among them.
pub proof fn smaller_and_larger_are_extreme(x: u64, y: u64)
    ensures
        smaller(x, y) == x || smaller(x, y) == y,
        larger(x, y) == x || larger(x, y) == y,
        is_numeric(x) ==> exact(smaller(x, y)) <= exact(x) && exact(larger(x, y)) >= exact(x),
        is_numeric(y) ==> exact(smaller(x, y)) <= exact(y) && exact(larger(x, y)) >= exact(y),
        is_numeric(x) || is_numeric(y) ==> is_numeric(smaller(x, y)) && is_numeric(larger(x, y)),
        !is_numeric(x) ==> smaller(x, y) == y && larger(x, y) == y,
        !is_numeric(y) && is_numeric(x) ==> smaller(x, y) == x && larger(x, y) == x,
{
    signs_negate(x);
    signs_negate(y);
    places_follow_numbers(x, y);
    places_follow_numbers(y, x);
}

/// What stands for a number has a place, and places are ordered as the numbers are.
pub proof fn numbers_and_places(x: u64, y: u64)
    ensures
        is_numeric(x) == !is_nan(x),
        is_numeric(y) == !is_nan(y),
        rank(x) < rank(y) <==> exact(x) < exact(y),
        rank(x) == rank(y) <==> exact(x) == exact(y),
{
    signs_negate(x);
    signs_negate(y);
    places_follow_numbers(x, y);
}

} // verus!
