//! Counting the multiples of a positive divisor in a half-open interval.

use vstd::prelude::*;

verus! {

use vstd::arithmetic::div_mod::{
    lemma_fundamental_div_mod,
    lemma_fundamental_div_mod_converse,
    lemma_mod_division_less_than_divisor,
};

/// True when `x` is divisible by `d`.
pub open spec fn is_multiple_of(x: int, d: int) -> bool {
    x % d == 0
}

/// The number of multiples of `d` in the half-open interval `[s, e)`,
/// counted one integer at a time; meaningful for `s <= e` and `d > 0`.
pub open spec fn count_multiples(s: int, e: int, d: int) -> int
    decreases e - s,
{
    if s >= e {
        0
    } else {
        (if is_multiple_of(s, d) { 1int } else { 0int }) + count_multiples(s + 1, e, d)
    }
}

/// The least multiple of `d` that is greater than or equal to `x`, divided
/// by `d`: the ceiling of `x / d` under Euclidean division.
pub open spec fn ceil_div(x: int, d: int) -> int {
    if x % d == 0 { x / d } else { x / d + 1 }
}

/// Closed form of the count of multiples of `d` in `[s, e)`, extended
/// antisymmetrically to reversed intervals.
pub open spec fn in_between_spec(s: int, e: int, d: int) -> int {
    ceil_div(e, d) - ceil_div(s, d)
}

/// Range of the Euclidean quotient and remainder for a positive divisor.
proof fn lemma_div_mod_range(x: int, d: int)
    requires
        d >= 1,
    ensures
        0 <= x % d < d,
        x >= 0 ==> 0 <= x / d <= x,
        x >= 0 && x % d != 0 ==> x / d + 1 <= x,
        x < 0 ==> x <= x / d <= -1,
{
    lemma_fundamental_div_mod(x, d);
    lemma_mod_division_less_than_divisor(x, d);
    let q = x / d;
    let r = x % d;
    if x >= 0 {
        assert(0 <= q && q <= x && (r != 0 ==> q + 1 <= x)) by (nonlinear_arith)
            requires
                d >= 1,
                x == d * q + r,
                0 <= r < d,
                x >= 0,
        ;
    } else {
        assert(x <= q && q <= -1) by (nonlinear_arith)
            requires
                d >= 1,
                x == d * q + r,
                0 <= r < d,
                x < 0,
        ;
    }
}

/// The adjusted quotient never leaves the interval between `x` and zero.
pub proof fn lemma_ceil_div_range(x: int, d: int)
    requires
        d >= 1,
    ensures
        x >= 0 ==> 0 <= ceil_div(x, d) <= x,
        x < 0 ==> x <= ceil_div(x, d) <= 0,
{
    lemma_div_mod_range(x, d);
}

/// Raising an endpoint by one raises its adjusted quotient exactly when the
/// old endpoint was itself a multiple of `d`.
proof fn lemma_ceil_div_step(x: int, d: int)
    requires
        d > 0,
    ensures
        ceil_div(x + 1, d) == ceil_div(x, d) + (if is_multiple_of(x, d) { 1int } else { 0int }),
{
    lemma_fundamental_div_mod(x, d);
    lemma_mod_division_less_than_divisor(x, d);
    let q = x / d;
    let r = x % d;
    if r == d - 1 {
        assert(x + 1 == (q + 1) * d + 0) by (nonlinear_arith)
            requires
                x == d * q + r,
                r == d - 1,
        ;
        lemma_fundamental_div_mod_converse(x + 1, d, q + 1, 0);
    } else {
        assert(x + 1 == q * d + (r + 1)) by (nonlinear_arith)
            requires
                x == d * q + r,
        ;
        lemma_fundamental_div_mod_converse(x + 1, d, q, r + 1);
    }
}

/// Counting law: over an ordered interval and a positive divisor, the
/// closed form equals the number of multiples of `d` in `[s, e)`.
pub proof fn lemma_in_between_counts(s: int, e: int, d: int)
    requires
        d > 0,
        s <= e,
    ensures
        in_between_spec(s, e, d) == count_multiples(s, e, d),
    decreases e - s,
{
    if s < e {
        lemma_ceil_div_step(s, d);
        lemma_in_between_counts(s + 1, e, d);
    }
}

/// The set of multiples of `d` in the half-open interval `[s, e)`.
pub open spec fn multiples_in(s: int, e: int, d: int) -> Set<int> {
    Set::new(|x: int| s <= x < e && is_multiple_of(x, d))
}

/// The one-by-one count is the cardinality of the set of multiples of `d`
/// in `[s, e)`.
pub proof fn lemma_count_is_cardinality(s: int, e: int, d: int)
    requires
        d > 0,
        s <= e,
    ensures
        multiples_in(s, e, d).finite(),
        multiples_in(s, e, d).len() == count_multiples(s, e, d),
    decreases e - s,
{
    if s >= e {
        assert(multiples_in(s, e, d) =~= Set::empty());
    } else {
        lemma_count_is_cardinality(s + 1, e, d);
        if is_multiple_of(s, d) {
            assert(multiples_in(s, e, d) =~= multiples_in(s + 1, e, d).insert(s));
        } else {
            assert(multiples_in(s, e, d) =~= multiples_in(s + 1, e, d));
        }
    }
}

/// With divisor 1 every integer counts, so the count is the length `e - s`.
pub proof fn lemma_unit_divisor(s: int, e: int)
    ensures
        in_between_spec(s, e, 1) == e - s,
{
    lemma_fundamental_div_mod_converse(s, 1, s, 0);
    lemma_fundamental_div_mod_converse(e, 1, e, 0);
}

/// Antisymmetry: swapping the endpoints negates the count.
pub proof fn lemma_antisymmetry(s: int, e: int, d: int)
    requires
        d > 0,
    ensures
        in_between_spec(s, e, d) == -in_between_spec(e, s, d),
{
}

/// An empty interval holds no multiples.
pub proof fn lemma_zero_interval(s: int, d: int)
    requires
        d > 0,
    ensures
        in_between_spec(s, s, d) == 0,
{
}

/// Splitting an interval at any midpoint splits the count.
pub proof fn lemma_additivity(s: int, m: int, e: int, d: int)
    requires
        d > 0,
    ensures
        in_between_spec(s, e, d) == in_between_spec(s, m, d) + in_between_spec(m, e, d),
{
}

/// An interval running from one multiple of `d` to the multiple `n` steps
/// later holds exactly `n` multiples.
pub proof fn lemma_aligned_endpoints(k: int, n: int, d: int)
    requires
        d > 0,
        n >= 0,
    ensures
        in_between_spec(k * d, (k + n) * d, d) == n,
{
    lemma_fundamental_div_mod_converse(k * d, d, k, 0);
    lemma_fundamental_div_mod_converse((k + n) * d, d, k + n, 0);
}

/// The ceiling of `x / div` for a positive divisor, computed from the
/// Euclidean quotient and remainder.
fn ceil_div_i32(x: i32, div: i32) -> (q: i32)
    requires
        div >= 1,
    ensures
        q == ceil_div(x as int, div as int),
        x >= 0 ==> 0 <= q <= x,
        x < 0 ==> x <= q <= 0,
{
    proof {
        lemma_div_mod_range(x as int, div as int);
    }
    let quo = x.checked_div_euclid(div).unwrap();
    let rem = x.checked_rem_euclid(div).unwrap();
    if rem != 0 {
        quo + 1
    } else {
        quo
    }
}

/// Counts the multiples of `div` in the half-open interval `start..end`.
///
/// For `start <= end` the result is the number of integers in `[start, end)`
/// that `div` divides; for a reversed interval it is the negated count over
/// `[end, start)`. With `div == 1` it is the length `end - start`.
pub fn in_between(start: i32, end: i32, div: i32) -> (r: i32)
    requires
        div > 0,
        i32::MIN <= in_between_spec(start as int, end as int, div as int) <= i32::MAX,
    ensures
        r == in_between_spec(start as int, end as int, div as int),
        start <= end ==> r == count_multiples(start as int, end as int, div as int)
            && r == multiples_in(start as int, end as int, div as int).len(),
        start > end ==> r == -count_multiples(end as int, start as int, div as int),
        div == 1 ==> r == end - start,
{
    let lo = ceil_div_i32(start, div);
    let hi = ceil_div_i32(end, div);
    proof {
        if start <= end {
            lemma_in_between_counts(start as int, end as int, div as int);
            lemma_count_is_cardinality(start as int, end as int, div as int);
        } else {
            lemma_in_between_counts(end as int, start as int, div as int);
        }
        if div == 1 {
            lemma_unit_divisor(start as int, end as int);
        }
    }
    hi - lo
}

/// Total variant of [`in_between`]: instead of demanding a positive divisor
/// and a representable count of the caller, it answers `None` on those
/// inputs.
pub fn in_between_checked(start: i32, end: i32, div: i32) -> (r: Option<i32>)
    ensures
        match r {
            Some(v) => div > 0 && v == in_between_spec(
                start as int,
                end as int,
                div as int,
            ),
            None => div <= 0 || in_between_spec(start as int, end as int, div as int)
                < i32::MIN || in_between_spec(start as int, end as int, div as int) > i32::MAX,
        },
{
    if div <= 0 {
        return None;
    }
    let lo = ceil_div_i32(start, div) as i64;
    let hi = ceil_div_i32(end, div) as i64;
    let diff = hi - lo;
    if diff < i32::MIN as i64 || diff > i32::MAX as i64 {
        None
    } else {
        Some(diff as i32)
    }
}

} // verus!
