use vstd::prelude::*;
use vstd::arithmetic::power2::{pow2, lemma_pow2_pos, lemma_pow2_unfold, lemma_pow2_adds, lemma_pow2_strictly_increases};
use vstd::arithmetic::div_mod::{lemma_fundamental_div_mod_converse, lemma_div_denominator, lemma_mod_breakdown};
use crate::rounding::{round_half_even, log2_ratio, round_half_even_exec};
use crate::text::{is_digit, digit_val, all_digits, digits_value, digit_to_char};
use crate::decimal::{pow10, lemma_pow10_pos, lemma_pow10_adds, lemma_digits_concat, lemma_digits_bound, lemma_digits_lead, lemma_zero_digits};

verus! {

// ---------------------------------------------------------------------------
// Positive rationals rounded to binary doubles
// ---------------------------------------------------------------------------

/// The part of `e` at or above zero.
pub open spec fn pos(e: int) -> nat {
    if e >= 0 {
        e as nat
    } else {
        0
    }
}

/// The part of `e` below zero, negated.
pub open spec fn neg(e: int) -> nat {
    if e < 0 {
        (-e) as nat
    } else {
        0
    }
}

/// The smallest `u` with `n * 2^u >= d` (0 when `n >= d`).
pub open spec fn neg_log2(n: nat, d: nat) -> nat
    decreases d - n,
{
    if n == 0 || n >= d {
        0
    } else if 2 * n >= d {
        1
    } else {
        1 + neg_log2(2 * n, d)
    }
}

/// `floor(log2(n / d))` for positive `n` and `d`.
pub open spec fn floor_log2(n: nat, d: nat) -> int {
    if n >= d {
        log2_ratio(n, d) as int
    } else {
        -(neg_log2(n, d) as int)
    }
}

/// `2^t <= n / d < 2^(t + 1)`, written without fractions.
pub open spec fn within(n: nat, d: nat, t: int) -> bool {
    &&& d * pow2(pos(t)) <= n * pow2(neg(t))
    &&& n * pow2(neg(t)) < 2 * d * pow2(pos(t))
}

/// `n / d` rounded to a multiple of `2^e`, halves to even, counted in units of `2^e`.
pub open spec fn round_at(n: nat, d: nat, e: int) -> nat {
    round_half_even(n * pow2(neg(e)), d * pow2(pos(e)))
}

/// The exponent of the double nearest to `n / d`: that double is its
/// significand times `2^exponent`, with a significand of 53 bits.
pub open spec fn nearest_exp(n: nat, d: nat) -> int {
    floor_log2(n, d) - 52
}

/// The significand of the double nearest to `n / d`, halves to even.
pub open spec fn nearest_sig(n: nat, d: nat) -> nat {
    round_at(n, d, nearest_exp(n, d))
}

/// `sig * 2^e` truncated toward zero.
pub open spec fn floor_scaled(sig: nat, e: int) -> nat {
    (sig * pow2(pos(e))) / pow2(neg(e))
}

/// A positive `n / d` read as the nearest double, multiplied by `10^k` as
/// doubles multiply (the exact product rounded to the nearest double, halves
/// to even), then truncated toward zero.
pub open spec fn double_times_pow10(n: nat, d: nat, k: nat) -> nat {
    let e1 = nearest_exp(n, d);
    let n2 = nearest_sig(n, d) * crate::decimal::pow10(k) * pow2(pos(e1));
    let d2 = pow2(neg(e1));
    floor_scaled(nearest_sig(n2, d2), nearest_exp(n2, d2))
}

// ---------------------------------------------------------------------------
// Lemmas
// ---------------------------------------------------------------------------

/// Rounding a quotient does not depend on a common factor.
proof fn lemma_rhe_scale(a: nat, b: nat, c: nat)
    requires
        b > 0,
        c > 0,
    ensures
        round_half_even(a * c, b * c) == round_half_even(a, b),
{
    let q = a / b;
    let r = a % b;
    assert(a == q * b + r && 0 <= r < b) by (nonlinear_arith)
        requires q == a / b, r == a % b, b > 0,
    ;
    assert(a * c == q * (b * c) + r * c && r * c < b * c) by (nonlinear_arith)
        requires a == q * b + r, r < b, c > 0,
    ;
    assert(b * c > 0) by (nonlinear_arith)
        requires b > 0, c > 0,
    ;
    lemma_fundamental_div_mod_converse((a * c) as int, (b * c) as int, q as int, (r * c) as int);
    assert((2 * (r * c) > b * c) == (2 * r > b)) by (nonlinear_arith)
        requires c > 0,
    ;
    assert((2 * (r * c) < b * c) == (2 * r < b)) by (nonlinear_arith)
        requires c > 0,
    ;
}

/// Rounding `a * 2^i / (b * 2^j)` depends on `i - j` only.
proof fn lemma_rhe_shift(a: nat, b: nat, i: nat, j: nat, i2: nat, j2: nat)
    requires
        b > 0,
        i + j2 == i2 + j,
    ensures
        round_half_even(a * pow2(i), b * pow2(j)) == round_half_even(a * pow2(i2), b * pow2(j2)),
{
    lemma_pow2_pos(i);
    lemma_pow2_pos(j);
    lemma_pow2_pos(i2);
    lemma_pow2_pos(j2);
    lemma_pow2_adds(i, j2);
    lemma_pow2_adds(j, j2);
    lemma_pow2_adds(i2, j);
    lemma_pow2_adds(j2, j);
    assert(b * pow2(j) > 0 && b * pow2(j2) > 0) by (nonlinear_arith)
        requires b > 0, pow2(j) > 0, pow2(j2) > 0,
    ;
    lemma_rhe_scale(a * pow2(i), b * pow2(j), pow2(j2));
    lemma_rhe_scale(a * pow2(i2), b * pow2(j2), pow2(j));
    assert(a * pow2(i) * pow2(j2) == a * pow2(i2) * pow2(j)) by (nonlinear_arith)
        requires pow2(i) * pow2(j2) == pow2(i + j2), pow2(i2) * pow2(j) == pow2(i2 + j), i + j2 == i2 + j,
    ;
    assert(b * pow2(j) * pow2(j2) == b * pow2(j2) * pow2(j)) by (nonlinear_arith);
}

proof fn lemma_log2_ratio_within(n: nat, d: nat)
    requires
        0 < d <= n,
    ensures
        pow2(log2_ratio(n, d)) * d <= n < 2 * pow2(log2_ratio(n, d)) * d,
    decreases n - d,
{
    vstd::arithmetic::power2::lemma2_to64();
    if n < 2 * d {
        assert(log2_ratio(n, d) == 0);
        assert(pow2(0) == 1);
        assert(pow2(0) * d == d);
    } else {
        lemma_log2_ratio_within(n, 2 * d);
        let t = log2_ratio(n, 2 * d);
        assert(log2_ratio(n, d) == t + 1);
        lemma_pow2_unfold(t + 1);
        assert(pow2(t) * (2 * d) == pow2(t + 1) * d) by (nonlinear_arith)
            requires pow2(t + 1) == 2 * pow2(t),
        ;
        assert(2 * pow2(t) * (2 * d) == 2 * pow2(t + 1) * d) by (nonlinear_arith)
            requires pow2(t + 1) == 2 * pow2(t),
        ;
    }
}

proof fn lemma_neg_log2_within(n: nat, d: nat)
    requires
        0 < n < d,
    ensures
        neg_log2(n, d) >= 1,
        d <= n * pow2(neg_log2(n, d)) < 2 * d,
    decreases d - n,
{
    if 2 * n >= d {
        vstd::arithmetic::power2::lemma2_to64();
        assert(neg_log2(n, d) == 1);
        assert(pow2(1) == 2);
        assert(n * pow2(1) == 2 * n);
    } else {
        lemma_neg_log2_within(2 * n, d);
        let u = neg_log2(2 * n, d);
        assert(neg_log2(n, d) == u + 1);
        lemma_pow2_unfold(u + 1);
        assert(2 * n * pow2(u) == n * pow2(u + 1)) by (nonlinear_arith)
            requires pow2(u + 1) == 2 * pow2(u),
        ;
    }
}

/// `floor_log2` meets its description.
proof fn lemma_floor_log2_within(n: nat, d: nat)
    requires
        n > 0,
        d > 0,
    ensures
        within(n, d, floor_log2(n, d)),
{
    vstd::arithmetic::power2::lemma2_to64();
    if n >= d {
        lemma_log2_ratio_within(n, d);
        assert(pow2(0) == 1);
        let t = log2_ratio(n, d);
        assert(floor_log2(n, d) == t);
        assert(pos(t as int) == t && neg(t as int) == 0);
        assert(pow2(t) * d == d * pow2(t)) by (nonlinear_arith);
        assert(2 * pow2(t) * d == 2 * d * pow2(t)) by (nonlinear_arith);
        assert(n * pow2(0) == n);
    } else {
        lemma_neg_log2_within(n, d);
        let u = neg_log2(n, d);
        assert(floor_log2(n, d) == -u);
        assert(pos(-u) == 0 && neg(-u) == u);
        assert(pow2(0) == 1);
        assert(d * pow2(0) == d);
        assert(2 * d * pow2(0) == 2 * d);
    }
}

/// `2^a <= 2^b` only where `a <= b`.
proof fn lemma_pow2_le(a: nat, b: nat)
    requires
        pow2(a) <= pow2(b),
    ensures
        a <= b,
{
    if a > b {
        lemma_pow2_strictly_increases(b, a);
    }
}

/// `2^a < 2^b` only where `a < b`.
proof fn lemma_pow2_lt(a: nat, b: nat)
    requires
        pow2(a) < pow2(b),
    ensures
        a < b,
{
    if a > b {
        lemma_pow2_strictly_increases(b, a);
    }
}

/// The description of `floor_log2` fixes it.
proof fn lemma_floor_log2_unique(n: nat, d: nat, t: int)
    requires
        n > 0,
        d > 0,
        within(n, d, t),
    ensures
        floor_log2(n, d) == t,
{
    let t0 = floor_log2(n, d);
    lemma_floor_log2_within(n, d);
    lemma_pow2_adds(neg(t), neg(t0));
    lemma_pow2_adds(pos(t), neg(t0));
    lemma_pow2_adds(pos(t0), neg(t));
    lemma_pow2_adds(pos(t0), pos(t));
    lemma_pow2_adds(neg(t), pos(t0));
    lemma_pow2_adds(neg(t0), pos(t));
    lemma_pow2_pos(neg(t));
    lemma_pow2_pos(neg(t0));
    lemma_pow2_pos(pos(t));
    lemma_pow2_pos(pos(t0));
    let a = n * pow2(neg(t) + neg(t0));
    // from t: a < 2 d 2^(pos t + neg t0); from t0: a >= d 2^(pos t0 + neg t)
    assert(a < 2 * d * pow2(pos(t) + neg(t0))) by (nonlinear_arith)
        requires
            n * pow2(neg(t)) < 2 * d * pow2(pos(t)),
            pow2(neg(t0)) > 0,
            a == n * pow2(neg(t) + neg(t0)),
            pow2(neg(t) + neg(t0)) == pow2(neg(t)) * pow2(neg(t0)),
            pow2(pos(t) + neg(t0)) == pow2(pos(t)) * pow2(neg(t0)),
    ;
    assert(a >= d * pow2(pos(t0) + neg(t))) by (nonlinear_arith)
        requires
            d * pow2(pos(t0)) <= n * pow2(neg(t0)),
            pow2(neg(t)) > 0,
            a == n * pow2(neg(t) + neg(t0)),
            pow2(neg(t) + neg(t0)) == pow2(neg(t)) * pow2(neg(t0)),
            pow2(pos(t0) + neg(t)) == pow2(pos(t0)) * pow2(neg(t)),
    ;
    assert(a < 2 * d * pow2(pos(t0) + neg(t))) by (nonlinear_arith)
        requires
            n * pow2(neg(t0)) < 2 * d * pow2(pos(t0)),
            pow2(neg(t)) > 0,
            a == n * pow2(neg(t) + neg(t0)),
            pow2(neg(t) + neg(t0)) == pow2(neg(t0)) * pow2(neg(t)),
            pow2(pos(t0) + neg(t)) == pow2(pos(t0)) * pow2(neg(t)),
    ;
    assert(a >= d * pow2(pos(t) + neg(t0))) by (nonlinear_arith)
        requires
            d * pow2(pos(t)) <= n * pow2(neg(t)),
            pow2(neg(t0)) > 0,
            a == n * pow2(neg(t) + neg(t0)),
            pow2(neg(t) + neg(t0)) == pow2(neg(t)) * pow2(neg(t0)),
            pow2(pos(t) + neg(t0)) == pow2(pos(t)) * pow2(neg(t0)),
    ;
    // so 2^(pos t0 + neg t) < 2^(pos t + neg t0 + 1) and the other way round
    let x = pos(t0) + neg(t);
    let y = pos(t) + neg(t0);
    lemma_pow2_unfold(x + 1);
    lemma_pow2_unfold(y + 1);
    assert(pow2(x) < pow2(y + 1)) by (nonlinear_arith)
        requires d * pow2(x) <= a, a < 2 * d * pow2(y), pow2(y + 1) == 2 * pow2(y), d > 0,
    ;
    assert(pow2(y) < pow2(x + 1)) by (nonlinear_arith)
        requires d * pow2(y) <= a, a < 2 * d * pow2(x), pow2(x + 1) == 2 * pow2(x), d > 0,
    ;
    lemma_pow2_le(x, y + 1);
    lemma_pow2_le(y, x + 1);
    if x == y + 1 {
        assert(pow2(x) < pow2(x));
    }
    if y == x + 1 {
        assert(pow2(y) < pow2(y));
    }
    assert(x == y);
}

/// Rounding to 53 bits from a quotient and its remainder: `acc = X / Y` and
/// `r0 = X % Y` decide the rounding of `X / (Y * 2^sh)`.
proof fn lemma_round_from_quotient(x: nat, y: nat, sh: nat)
    requires
        y > 0,
        sh >= 1,
    ensures
        ({
            let acc = x / y;
            let r0 = x % y;
            let q = acc / pow2(sh);
            let rem = acc % pow2(sh);
            let half = pow2((sh - 1) as nat);
            round_half_even(x, y * pow2(sh)) == if rem > half || (rem == half && (r0 > 0 || q % 2 == 1)) {
                q + 1
            } else {
                q
            }
        }),
{
    let acc = x / y;
    let r0 = x % y;
    let p = pow2(sh);
    let half = pow2((sh - 1) as nat);
    lemma_pow2_pos(sh);
    lemma_pow2_unfold(sh);
    assert(p == 2 * half);
    lemma_div_denominator(x as int, y as int, p as int);
    lemma_mod_breakdown(x as int, y as int, p as int);
    let q = acc / p;
    let rem = acc % p;
    assert(x / (y * p) == q);
    assert(x % (y * p) == y * rem + r0);
    assert(0 <= r0 < y) by (nonlinear_arith)
        requires r0 == x % y, y > 0,
    ;
    if rem > half {
        assert(2 * (y * rem + r0) > y * p) by (nonlinear_arith)
            requires rem >= half + 1, p == 2 * half, r0 >= 0, y > 0,
        ;
    } else if rem < half {
        assert(2 * (y * rem + r0) < y * p) by (nonlinear_arith)
            requires rem + 1 <= half, p == 2 * half, r0 < y, y > 0,
        ;
    } else {
        assert(2 * (y * rem + r0) == y * p + 2 * r0) by (nonlinear_arith)
            requires rem == half, p == 2 * half,
        ;
    }
}


/// `2^(i - j) <= n / d < 2^(i - j + 1)` gives `within(n, d, i - j)`.
proof fn lemma_within_from(n: nat, d: nat, i: nat, j: nat)
    requires
        d * pow2(i) <= n * pow2(j),
        n * pow2(j) < 2 * d * pow2(i),
    ensures
        within(n, d, i - j),
{
    let t = i - j;
    let a = pos(t);
    let b = neg(t);
    assert(i + b == j + a);
    lemma_pow2_adds(i, b);
    lemma_pow2_adds(j, b);
    lemma_pow2_adds(j, a);
    lemma_pow2_pos(j);
    lemma_pow2_pos(b);
    // multiply the hypothesis by 2^b, then cancel 2^j
    assert(d * pow2(a) * pow2(j) <= n * pow2(b) * pow2(j)) by (nonlinear_arith)
        requires
            d * pow2(i) <= n * pow2(j),
            pow2(i + b) == pow2(i) * pow2(b),
            pow2(j + b) == pow2(j) * pow2(b),
            pow2(j + a) == pow2(j) * pow2(a),
            i + b == j + a,
            pow2(b) > 0,
    ;
    assert(n * pow2(b) * pow2(j) < 2 * d * pow2(a) * pow2(j)) by (nonlinear_arith)
        requires
            n * pow2(j) < 2 * d * pow2(i),
            pow2(i + b) == pow2(i) * pow2(b),
            pow2(j + b) == pow2(j) * pow2(b),
            pow2(j + a) == pow2(j) * pow2(a),
            i + b == j + a,
            pow2(b) > 0,
    ;
    assert(d * pow2(a) <= n * pow2(b)) by (nonlinear_arith)
        requires d * pow2(a) * pow2(j) <= n * pow2(b) * pow2(j), pow2(j) > 0,
    ;
    assert(n * pow2(b) < 2 * d * pow2(a)) by (nonlinear_arith)
        requires n * pow2(b) * pow2(j) < 2 * d * pow2(a) * pow2(j), pow2(j) > 0,
    ;
}

/// `q <= round_half_even(n, d) <= q + 1` for the quotient `q`.
proof fn lemma_rhe_bounds(n: nat, d: nat)
    requires
        d > 0,
    ensures
        n / d <= round_half_even(n, d) <= n / d + 1,
{
}

/// The significand of the nearest double has 53 bits (or is `2^53` after
/// rounding up).
proof fn lemma_sig_range(n: nat, d: nat)
    requires
        n > 0,
        d > 0,
    ensures
        pow2(52) <= nearest_sig(n, d) <= pow2(53),
{
    let t = floor_log2(n, d);
    let e = nearest_exp(n, d);
    lemma_floor_log2_within(n, d);
    let bn = n * pow2(neg(e));
    let bd = d * pow2(pos(e));
    // 2^52 * bd <= bn < 2^53 * bd
    assert(pos(t) + neg(e) == pos(e) + neg(t) + 52);
    lemma_pow2_adds(pos(t), neg(e));
    lemma_pow2_adds(pos(e), neg(t) + 52);
    lemma_pow2_adds(neg(t), 52);
    lemma_pow2_adds(neg(t), neg(e));
    lemma_pow2_adds(pos(e), neg(t));
    lemma_pow2_pos(neg(t));
    lemma_pow2_pos(pos(e));
    lemma_pow2_unfold(53);
    assert(bn * pow2(neg(t)) >= pow2(52) * bd * pow2(neg(t))) by (nonlinear_arith)
        requires
            d * pow2(pos(t)) <= n * pow2(neg(t)),
            bn == n * pow2(neg(e)),
            bd == d * pow2(pos(e)),
            pow2(pos(t) + neg(e)) == pow2(pos(t)) * pow2(neg(e)),
            pow2(pos(e) + (neg(t) + 52)) == pow2(pos(e)) * pow2(neg(t) + 52),
            pow2(neg(t) + 52) == pow2(neg(t)) * pow2(52),
            pos(t) + neg(e) == pos(e) + neg(t) + 52,
    ;
    lemma_pow2_pos(neg(e));
    assert(bn * pow2(neg(t)) == n * pow2(neg(t)) * pow2(neg(e))) by (nonlinear_arith)
        requires bn == n * pow2(neg(e)),
    ;
    assert(n * pow2(neg(t)) * pow2(neg(e)) < 2 * d * pow2(pos(t)) * pow2(neg(e))) by (nonlinear_arith)
        requires n * pow2(neg(t)) < 2 * d * pow2(pos(t)), pow2(neg(e)) > 0,
    ;
    assert(pow2(pos(t)) * pow2(neg(e)) == pow2(pos(e)) * (pow2(neg(t)) * pow2(52))) by {
        assert(pow2(pos(t) + neg(e)) == pow2(pos(e) + (neg(t) + 52)));
    }
    assert(2 * d * pow2(pos(t)) * pow2(neg(e)) == pow2(53) * bd * pow2(neg(t))) by (nonlinear_arith)
        requires
            pow2(pos(t)) * pow2(neg(e)) == pow2(pos(e)) * (pow2(neg(t)) * pow2(52)),
            bd == d * pow2(pos(e)),
            pow2(53) == 2 * pow2(52),
    ;
    assert(bd > 0) by (nonlinear_arith)
        requires d > 0, pow2(pos(e)) > 0, bd == d * pow2(pos(e)),
    ;
    assert(pow2(52) * bd <= bn < pow2(53) * bd) by (nonlinear_arith)
        requires
            bn * pow2(neg(t)) >= pow2(52) * bd * pow2(neg(t)),
            bn * pow2(neg(t)) < pow2(53) * bd * pow2(neg(t)),
            pow2(neg(t)) > 0,
    ;
    assert(pow2(52) <= bn / bd < pow2(53)) by (nonlinear_arith)
        requires pow2(52) * bd <= bn < pow2(53) * bd, bd > 0,
    ;
    lemma_rhe_bounds(bn, bd);
}

/// `n >= 2^t * d` gives `floor_log2(n, d) >= t`.
proof fn lemma_floor_log2_ge(n: nat, d: nat, t: nat)
    requires
        n > 0,
        d > 0,
        n >= pow2(t) * d,
    ensures
        floor_log2(n, d) >= t,
{
    let t0 = floor_log2(n, d);
    lemma_floor_log2_within(n, d);
    if t0 < t {
        lemma_pow2_adds(t, neg(t0));
        lemma_pow2_adds(pos(t0), 1);
        lemma_pow2_pos(neg(t0));
        vstd::arithmetic::power2::lemma2_to64();
        assert(d * pow2(t + neg(t0)) < d * pow2(pos(t0) + 1)) by (nonlinear_arith)
            requires
                n >= pow2(t) * d,
                n * pow2(neg(t0)) < 2 * d * pow2(pos(t0)),
                pow2(t + neg(t0)) == pow2(t) * pow2(neg(t0)),
                pow2(pos(t0) + 1) == pow2(pos(t0)) * pow2(1),
                pow2(1) == 2,
                pow2(neg(t0)) > 0,
        ;
        assert(pow2(t + neg(t0)) < pow2(pos(t0) + 1)) by (nonlinear_arith)
            requires d * pow2(t + neg(t0)) < d * pow2(pos(t0) + 1), d > 0,
        ;
        lemma_pow2_lt(t + neg(t0), pos(t0) + 1);
    }
}

/// `n * 2^u < d` gives `floor_log2(n, d) < -u`.
proof fn lemma_floor_log2_lt(n: nat, d: nat, u: nat)
    requires
        n > 0,
        d > 0,
        n * pow2(u) < d,
    ensures
        floor_log2(n, d) < -(u as int),
{
    let t0 = floor_log2(n, d);
    lemma_floor_log2_within(n, d);
    if t0 >= -(u as int) {
        assert(neg(t0) <= pos(t0) + u);
        lemma_pow2_adds(pos(t0), u);
        if neg(t0) < pos(t0) + u {
            lemma_pow2_strictly_increases(neg(t0), pos(t0) + u);
        }
        lemma_pow2_pos(pos(t0));
        assert(n * pow2(neg(t0)) <= n * pow2(pos(t0) + u)) by (nonlinear_arith)
            requires pow2(neg(t0)) <= pow2(pos(t0) + u),
        ;
        assert(n * pow2(pos(t0) + u) < d * pow2(pos(t0))) by (nonlinear_arith)
            requires n * pow2(u) < d, pow2(pos(t0) + u) == pow2(pos(t0)) * pow2(u), pow2(pos(t0)) > 0,
        ;
    }
}

proof fn lemma_pow10_12()
    ensures
        crate::decimal::pow10(12) == 1_000_000_000_000,
        crate::decimal::pow10(12) < pow2(40),
{
    reveal_with_fuel(crate::decimal::pow10, 13);
    vstd::arithmetic::power2::lemma2_to64();
    vstd::arithmetic::power2::lemma2_to64_rest();
    assert(pow2(40) == 0x100_0000_0000);
}

/// A value of at least `2^64` stays at least `2^64` through both roundings.
pub(crate) proof fn lemma_times_pow10_big(n: nat, d: nat, k: nat)
    requires
        n > 0,
        d > 0,
        n >= pow2(64) * d,
    ensures
        double_times_pow10(n, d, k) >= pow2(64),
{
    vstd::arithmetic::power2::lemma2_to64();
    lemma_floor_log2_ge(n, d, 64);
    let e1 = nearest_exp(n, d);
    let s1 = nearest_sig(n, d);
    lemma_sig_range(n, d);
    crate::decimal::lemma_pow10_pos(k);
    let p = crate::decimal::pow10(k);
    let n2 = s1 * p * pow2(pos(e1));
    let d2 = pow2(neg(e1));
    assert(pos(e1) == e1 && neg(e1) == 0);
    lemma_pow2_adds(52, pos(e1));
    if pos(e1) > 12 {
        lemma_pow2_strictly_increases(12, pos(e1));
    }
    lemma_pow2_adds(52, 12);
    assert(pow2(52) * pow2(12) <= pow2(52) * pow2(pos(e1))) by (nonlinear_arith)
        requires pow2(12) <= pow2(pos(e1)),
    ;
    assert(n2 >= pow2(64) * d2) by (nonlinear_arith)
        requires
            n2 == s1 * p * pow2(pos(e1)),
            s1 >= pow2(52),
            p >= 1,
            d2 == 1,
            pow2(52) * pow2(12) <= pow2(52) * pow2(pos(e1)),
            pow2(64) == pow2(52) * pow2(12),
    ;
    assert(n2 > 0) by (nonlinear_arith)
        requires n2 >= pow2(64) * d2, d2 == 1, pow2(64) > 0,
    ;
    lemma_floor_log2_ge(n2, d2, 64);
    let e2 = nearest_exp(n2, d2);
    let s2 = nearest_sig(n2, d2);
    lemma_sig_range(n2, d2);
    assert(pos(e2) == e2 && neg(e2) == 0);
    if pos(e2) > 12 {
        lemma_pow2_strictly_increases(12, pos(e2));
    }
    assert(s2 * pow2(pos(e2)) >= pow2(64)) by (nonlinear_arith)
        requires s2 >= pow2(52), pow2(pos(e2)) >= pow2(12), pow2(64) == pow2(52) * pow2(12),
    ;
}

/// A value below `2^-44` gives 0 through both roundings and the truncation.
pub(crate) proof fn lemma_times_pow10_small(n: nat, d: nat, k: nat)
    requires
        n > 0,
        d > 0,
        k <= 12,
        n * pow2(44) < d,
    ensures
        double_times_pow10(n, d, k) == 0,
{
    vstd::arithmetic::power2::lemma2_to64();
    lemma_floor_log2_lt(n, d, 44);
    let e1 = nearest_exp(n, d);
    let s1 = nearest_sig(n, d);
    lemma_sig_range(n, d);
    crate::decimal::lemma_pow10_pos(k);
    crate::decimal::lemma_pow10_mono(k, 12);
    lemma_pow10_12();
    let p = crate::decimal::pow10(k);
    let n2 = s1 * p * pow2(pos(e1));
    let d2 = pow2(neg(e1));
    assert(pos(e1) == 0 && neg(e1) >= 97);
    assert(pow2(pos(e1)) == 1);
    lemma_pow2_pos(52);
    lemma_pow2_pos(53);
    if neg(e1) > 97 {
        lemma_pow2_strictly_increases(97, neg(e1));
    }
    lemma_pow2_adds(53, 40);
    lemma_pow2_adds(93, 4);
    assert(n2 == s1 * p);
    assert(s1 * p <= pow2(53) * p) by (nonlinear_arith)
        requires s1 <= pow2(53),
    ;
    assert(pow2(53) * p < pow2(53) * pow2(40)) by (nonlinear_arith)
        requires p < pow2(40), pow2(53) > 0,
    ;
    assert(n2 * pow2(4) < pow2(93) * pow2(4)) by (nonlinear_arith)
        requires n2 < pow2(93), pow2(4) > 0,
    ;
    assert(n2 * pow2(4) < d2);
    assert(n2 > 0) by (nonlinear_arith)
        requires n2 == s1 * p, s1 >= pow2(52), p >= 1, pow2(52) > 0,
    ;
    lemma_pow2_pos(neg(e1));
    lemma_floor_log2_lt(n2, d2, 4);
    let e2 = nearest_exp(n2, d2);
    let s2 = nearest_sig(n2, d2);
    lemma_sig_range(n2, d2);
    assert(pos(e2) == 0 && neg(e2) >= 57);
    lemma_pow2_strictly_increases(53, neg(e2));
    assert((s2 as nat) * pow2(0) / pow2(neg(e2)) == 0) by (nonlinear_arith)
        requires s2 <= pow2(53), pow2(53) < pow2(neg(e2)), pow2(0) == 1,
    ;
}

// ---------------------------------------------------------------------------
// Computing the rounding
// ---------------------------------------------------------------------------

/// Doubles a string of decimal digits in place; returns the digit carried
/// out of the top.
fn double_digits(f: &mut Vec<char>) -> (c: u128)
    requires
        all_digits(old(f)@),
    ensures
        final(f)@.len() == old(f)@.len(),
        all_digits(final(f)@),
        c <= 1,
        2 * digits_value(old(f)@) == c * pow10(old(f)@.len()) + digits_value(final(f)@),
{
    let ghost o = f@;
    let n = f.len();
    let mut i = n;
    let mut carry: u32 = 0;
    assert(o.skip(n as int) =~= Seq::<char>::empty());
    assert(f@.skip(n as int) =~= Seq::<char>::empty());
    while i > 0
        invariant
            i <= n,
            n == o.len(),
            f@.len() == n,
            carry <= 1,
            forall|j: int| 0 <= j < i ==> f@[j] == o[j],
            all_digits(o),
            all_digits(f@),
            2 * digits_value(o.skip(i as int)) == carry * pow10((n - i) as nat) + digits_value(
                f@.skip(i as int),
            ),
        decreases i,
    {
        let ghost f0 = f@;
        let dch = f[i - 1];
        assert(dch == o[i - 1]);
        assert(is_digit(o[i - 1]));
        let dv: u32 = (dch as u32) - 48;
        assert(dv == digit_val(o[i - 1]));
        let v: u32 = 2 * dv + carry;
        let nd = digit_to_char((v % 10) as u64);
        f.set(i - 1, nd);
        proof {
            let k = (n - i) as nat;
            assert(o.skip(i - 1) =~= seq![o[i - 1]] + o.skip(i as int));
            assert(f@.skip(i - 1) =~= seq![nd] + f0.skip(i as int));
            lemma_digits_concat(seq![o[i - 1]], o.skip(i as int));
            lemma_digits_concat(seq![nd], f0.skip(i as int));
            assert(seq![o[i - 1]].drop_last() =~= Seq::<char>::empty());
            assert(seq![nd].drop_last() =~= Seq::<char>::empty());
            assert(digits_value(Seq::<char>::empty()) == 0);
            assert(seq![o[i - 1]].last() == o[i - 1]);
            assert(seq![nd].last() == nd);
            assert(digits_value(seq![o[i - 1]]) == digit_val(o[i - 1]));
            assert(digits_value(seq![nd]) == digit_val(nd));
            assert(o.skip(i as int).len() == k);
            assert(f0.skip(i as int).len() == k);
            assert(pow10(k + 1) == 10 * pow10(k)) by {
                assert((k + 1) as nat - 1 == k);
            }
            let so = digits_value(o.skip(i as int));
            let sf = digits_value(f0.skip(i as int));
            assert(2 * (dv * pow10(k) + so) == (v / 10) * pow10(k + 1) + ((v % 10) * pow10(k) + sf))
                by (nonlinear_arith)
                requires
                    2 * so == carry * pow10(k) + sf,
                    v == 2 * dv + carry,
                    pow10(k + 1) == 10 * pow10(k),
            ;
            assert forall|j: int| 0 <= j < f@.len() implies is_digit(#[trigger] f@[j]) by {
                if j != i - 1 {
                    assert(f@[j] == f0[j]);
                }
            }
            assert((n - (i - 1)) as nat == k + 1);
        }
        carry = v / 10;
        i -= 1;
    }
    assert(o.skip(0) =~= o);
    assert(f@.skip(0) =~= f@);
    carry as u128
}

/// Whether a string of decimal digits has a nonzero value.
fn any_nonzero(f: &Vec<char>) -> (r: bool)
    requires
        all_digits(f@),
    ensures
        r == (digits_value(f@) > 0),
{
    let mut j: usize = 0;
    while j < f.len()
        invariant
            j <= f.len(),
            all_digits(f@),
            forall|i: int| 0 <= i < j ==> f@[i] == '0',
        decreases f.len() - j,
    {
        if f[j] != '0' {
            proof {
                let a = f@.take(j as int);
                let b = f@.skip(j as int);
                assert(f@ =~= a + b);
                lemma_digits_concat(a, b);
                assert(all_digits(b)) by {
                    assert forall|i: int| 0 <= i < b.len() implies is_digit(#[trigger] b[i]) by {
                        assert(b[i] == f@[j + i]);
                    }
                }
                assert(b[0] == f@[j as int]);
                lemma_digits_lead(b);
                lemma_pow10_pos((b.len() - 1) as nat);
            }
            return true;
        }
        j += 1;
    }
    proof {
        lemma_zero_digits(f@);
    }
    false
}

/// `2^e` as a `u128`.
fn pow2_u128(e: u32) -> (r: u128)
    requires
        e <= 127,
    ensures
        r == pow2(e as nat),
{
    let mut r: u128 = 1;
    let mut i: u32 = 0;
    proof {
        vstd::arithmetic::power2::lemma2_to64();
    }
    while i < e
        invariant
            i <= e <= 127,
            r == pow2(i as nat),
        decreases e - i,
    {
        proof {
            lemma_pow2_unfold((i + 1) as nat);
            if i + 1 < 127 {
                lemma_pow2_strictly_increases((i + 1) as nat, 127);
            }
            lemma_pow2_127_value();
        }
        r = r * 2;
        i += 1;
    }
    r
}

proof fn lemma_pow2_127_value()
    ensures
        pow2(127) == 0x8000_0000_0000_0000_0000_0000_0000_0000,
        pow2(64) == 0x1_0000_0000_0000_0000,
{
    vstd::arithmetic::power2::lemma2_to64();
    vstd::arithmetic::power2::lemma2_to64_rest();
    lemma_pow2_adds(64, 63);
}

/// The `t` with `2^t <= x < 2^(t + 1)`.
fn bit_floor(x: u128) -> (t: u32)
    requires
        x >= 1,
    ensures
        t <= 127,
        pow2(t as nat) <= x < pow2((t + 1) as nat),
{
    let mut t: u32 = 0;
    let mut p: u128 = 1;
    proof {
        vstd::arithmetic::power2::lemma2_to64();
    }
    while p <= x / 2
        invariant
            1 <= p <= x,
            p == pow2(t as nat),
            t <= 127,
        decreases x - p,
    {
        proof {
            lemma_pow2_unfold((t + 1) as nat);
            if t + 1 > 127 {
                lemma_pow2_strictly_increases(127, (t + 1) as nat);
                lemma_pow2_127_value();
            }
        }
        p = p * 2;
        t = t + 1;
    }
    proof {
        lemma_pow2_unfold((t + 1) as nat);
    }
    t
}

/// `floor(x * 2^b)` for `x = i + 0.f` (the digits `f` after the point), and
/// whether anything is left below.
fn binary_digits(i: u128, f: Vec<char>, b: u32) -> (r: (u128, bool))
    requires
        all_digits(f@),
        b <= 110,
        i < pow10(20),
        i > 0 ==> b <= 60,
    ensures
        ({
            let n: nat = ((i as nat) * pow10(f@.len()) + digits_value(f@)) * pow2(b as nat);
            &&& r.0 == n / pow10(f@.len())
            &&& r.1 == (n % pow10(f@.len()) > 0)
        }),
{
    let ghost f0 = f@;
    let ghost dd = pow10(f0.len());
    let ghost n0: nat = (i as nat) * dd + digits_value(f0);
    let mut f = f;
    let mut acc: u128 = i;
    let mut j: u32 = 0;
    proof {
        lemma_pow10_pos(f0.len());
        lemma_digits_bound(f0);
        vstd::arithmetic::power2::lemma2_to64();
        crate::decimal::lemma_pow10_20();
        lemma_pow2_127_value();
        lemma_pow2_adds(67, 60);
        vstd::arithmetic::power2::lemma2_to64_rest();
        assert(pow2(67) > 100_000_000_000_000_000_000) by {
            lemma_pow2_adds(64, 3);
        }
    }
    while j < b
        invariant
            j <= b <= 110,
            i < pow10(20),
            i > 0 ==> b <= 60,
            all_digits(f@),
            f@.len() == f0.len(),
            dd == pow10(f0.len()),
            dd >= 1,
            n0 == i * dd + digits_value(f0),
            n0 * pow2(j as nat) == acc * dd + digits_value(f@),
            digits_value(f@) < dd,
            acc < (i + 1) * pow2(j as nat),
            pow10(20) == 100_000_000_000_000_000_000,
            pow2(127) == 0x8000_0000_0000_0000_0000_0000_0000_0000,
            pow2(127) == pow2(67) * pow2(60),
            pow2(67) > 100_000_000_000_000_000_000,
        decreases b - j,
    {
        let ghost fb = f@;
        let c = double_digits(&mut f);
        proof {
            lemma_pow2_unfold((j + 1) as nat);
            lemma_digits_bound(f@);
            // the new accumulator stays below (i + 1) * 2^(j + 1) <= 2^127
            if i > 0 {
                if j + 1 < 60 {
                    lemma_pow2_strictly_increases((j + 1) as nat, 60);
                }
                assert((i + 1) * pow2((j + 1) as nat) <= pow2(67) * pow2(60)) by (nonlinear_arith)
                    requires i + 1 <= pow2(67), pow2((j + 1) as nat) <= pow2(60),
                ;
            } else {
                if j + 1 < 127 {
                    lemma_pow2_strictly_increases((j + 1) as nat, 127);
                }
                assert((i + 1) * pow2((j + 1) as nat) <= pow2(127));
            }
            assert((i + 1) * pow2((j + 1) as nat) <= pow2(127));
            assert(2 * acc + c < (i + 1) * pow2((j + 1) as nat)) by (nonlinear_arith)
                requires
                    acc < (i + 1) * pow2(j as nat),
                    c <= 1,
                    pow2((j + 1) as nat) == 2 * pow2(j as nat),
            ;
            assert(n0 * pow2((j + 1) as nat) == (2 * acc + c) * dd + digits_value(f@)) by (nonlinear_arith)
                requires
                    n0 * pow2(j as nat) == acc * dd + digits_value(fb),
                    2 * digits_value(fb) == c * dd + digits_value(f@),
                    pow2((j + 1) as nat) == 2 * pow2(j as nat),
            ;
        }
        acc = 2 * acc + c;
        j += 1;
    }
    let sticky = any_nonzero(&f);
    proof {
        let n: nat = n0 * pow2(b as nat);
        lemma_fundamental_div_mod_converse(n as int, dd as int, acc as int, digits_value(f@) as int);
    }
    (acc, sticky)
}

/// A value held in `u64` as `as u64` holds it: larger values give `u64::MAX`.
pub open spec fn saturate(v: nat) -> nat {
    if v > 0xFFFF_FFFF_FFFF_FFFFnat {
        0xFFFF_FFFF_FFFF_FFFFnat
    } else {
        v
    }
}

/// The double nearest to `x = i + 0.f` (the digits `f` after the point), as
/// its significand and exponent; `None` when `x < 2^-44`.
fn nearest_of(i: u128, f: Vec<char>) -> (r: Option<(u128, i64)>)
    requires
        all_digits(f@),
        i < pow10(20),
        (i as nat) * pow10(f@.len()) + digits_value(f@) > 0,
    ensures
        ({
            let n = (i as nat) * pow10(f@.len()) + digits_value(f@);
            let d = pow10(f@.len());
            match r {
                None => n * pow2(44) < d,
                Some((s, e)) => s == nearest_sig(n, d) && e == nearest_exp(n, d) && -200 <= e <= 20,
            }
        }),
{
    let ghost n: nat = (i as nat) * pow10(f@.len()) + digits_value(f@);
    let ghost d: nat = pow10(f@.len());
    proof {
        lemma_pow10_pos(f@.len());
        vstd::arithmetic::power2::lemma2_to64();
        vstd::arithmetic::power2::lemma2_to64_rest();
        lemma_pow2_127_value();
    }
    let b: u32 = if i > 0 { 60 } else { 110 };
    let (acc, sticky) = binary_digits(i, f, b);
    let ghost x: nat = n * pow2(b as nat);
    let ghost r0: nat = x % d;
    proof {
        assert(acc * d + r0 == x && r0 < d) by (nonlinear_arith)
            requires acc == x / d, r0 == x % d, d > 0,
        ;
        lemma_pow2_pos(b as nat);
    }
    if acc < 0x80_0000_0000_0000 {
        proof {
            if i > 0 {
                assert(x >= pow2(60) * d) by (nonlinear_arith)
                    requires x == n * pow2(b as nat), n >= i * d, i >= 1, b == 60, pow2(b as nat) > 0,
                ;
                assert(acc >= pow2(60)) by (nonlinear_arith)
                    requires acc * d + r0 == x, r0 < d, x >= pow2(60) * d, d > 0,
                ;
                lemma_pow2_strictly_increases(55, 60);
            }
            assert(b == 110);
            lemma_pow2_adds(55, 55);
            assert(n * pow2(55) * pow2(55) < d * pow2(55)) by (nonlinear_arith)
                requires
                    acc * d + r0 == x,
                    r0 < d,
                    acc + 1 <= pow2(55),
                    x == n * pow2(110),
                    pow2(110) == pow2(55) * pow2(55),
            ;
            assert(n * pow2(55) < d) by (nonlinear_arith)
                requires n * pow2(55) * pow2(55) < d * pow2(55), pow2(55) > 0,
            ;
            lemma_pow2_strictly_increases(44, 55);
            assert(n * pow2(44) < d) by (nonlinear_arith)
                requires n * pow2(55) < d, pow2(44) < pow2(55),
            ;
        }
        return None;
    }
    let t = bit_floor(acc);
    proof {
        lemma_pow2_unfold((t + 1) as nat);
        assert(d * pow2(t as nat) <= x) by (nonlinear_arith)
            requires pow2(t as nat) <= acc, acc * d + r0 == x,
        ;
        assert(x < 2 * d * pow2(t as nat)) by (nonlinear_arith)
            requires acc + 1 <= pow2((t + 1) as nat), pow2((t + 1) as nat) == 2 * pow2(t as nat),
                acc * d + r0 == x, r0 < d,
        ;
        lemma_within_from(n, d, t as nat, b as nat);
        lemma_floor_log2_unique(n, d, t - b);
        if t < 55 {
            lemma_pow2_strictly_increases((t + 1) as nat, 55);
        }
        if t > 126 {
            lemma_pow2_strictly_increases(126, 127);
            lemma_pow2_unfold(127);
        }
    }
    let ghost e1: int = t - b - 52;
    let sh: u32 = t - 52;
    let p = pow2_u128(sh);
    let half = pow2_u128(sh - 1);
    proof {
        lemma_pow2_unfold(sh as nat);
        lemma_pow2_pos((sh - 1) as nat);
    }
    let q = acc / p;
    let rem = acc % p;
    proof {
        assert(q < acc) by (nonlinear_arith)
            requires q == acc / p, p >= 2, acc >= 1,
        ;
    }
    let s1: u128 = if rem > half || (rem == half && (sticky || q % 2 == 1)) {
        q + 1
    } else {
        q
    };
    proof {
        lemma_round_from_quotient(x, d, sh as nat);
        assert(neg(e1) + sh == b + pos(e1));
        lemma_rhe_shift(n, d, neg(e1), pos(e1), b as nat, sh as nat);
    }
    let e: i64 = (t as i64) - (b as i64) - 52;
    Some((s1, e))
}

/// `(v * 10^k) as u64` computed as doubles compute it, for the double `v`
/// nearest to `n / d`, given by its significand and exponent.
#[verifier::spinoff_prover]
fn times_pow10_floor(s1: u128, e1: i64, k: u64, Ghost(n): Ghost<nat>, Ghost(d): Ghost<nat>) -> (r: u64)
    requires
        n > 0,
        d > 0,
        s1 == nearest_sig(n, d),
        e1 == nearest_exp(n, d),
        -200 <= e1 <= 20,
        k <= 12,
    ensures
        r == saturate(double_times_pow10(n, d, k as nat)),
{
    proof {
        vstd::arithmetic::power2::lemma2_to64();
        vstd::arithmetic::power2::lemma2_to64_rest();
        lemma_pow2_127_value();
        lemma_sig_range(n, d);
        crate::decimal::lemma_pow10_mono(k as nat, 12);
        lemma_pow10_12();
        lemma_pow2_adds(53, 40);
        crate::decimal::lemma_pow10_pos(k as nat);
    }
    let pk = crate::decimal::pow10_exec(k as u32);
    proof {
        assert(s1 * pk <= pow2(53) * pk) by (nonlinear_arith)
            requires s1 <= pow2(53),
        ;
        assert(pow2(53) * pk < pow2(53) * pow2(40)) by (nonlinear_arith)
            requires pk < pow2(40), pow2(53) > 0,
        ;
        lemma_pow2_strictly_increases(93, 127);
        assert(s1 * pk >= s1) by (nonlinear_arith)
            requires pk >= 1,
        ;
    }
    let prod: u128 = s1 * pk;
    let t2 = bit_floor(prod);
    let ghost n2: nat = (s1 as nat) * pow10(k as nat) * pow2(pos(e1 as int));
    let ghost d2: nat = pow2(neg(e1 as int));
    let ghost i2: nat = (t2 as nat) + pos(e1 as int);
    proof {
        lemma_pow2_lt(52, (t2 + 1) as nat);
        if t2 >= 93 {
            if t2 > 93 {
                lemma_pow2_strictly_increases(93, t2 as nat);
            }
        }
        lemma_pow2_unfold((t2 + 1) as nat);
        lemma_pow2_pos(pos(e1 as int));
        lemma_pow2_pos(neg(e1 as int));
        lemma_pow2_adds(t2 as nat, pos(e1 as int));
        let ghost pp = pow2(pos(e1 as int));
        let ghost pn = pow2(neg(e1 as int));
        assert(d2 * pow2(i2) <= n2 * pow2(neg(e1 as int))) by (nonlinear_arith)
            requires
                pow2(t2 as nat) <= prod,
                prod == s1 * pow10(k as nat),
                n2 == s1 * pow10(k as nat) * pp,
                d2 == pn,
                pow2(i2) == pow2(t2 as nat) * pp,
                pn == pow2(neg(e1 as int)),
        ;
        assert(n2 * pow2(neg(e1 as int)) < 2 * d2 * pow2(i2)) by (nonlinear_arith)
            requires
                prod < 2 * pow2(t2 as nat),
                prod == s1 * pow10(k as nat),
                n2 == s1 * pow10(k as nat) * pp,
                d2 == pn,
                pow2(i2) == pow2(t2 as nat) * pp,
                pn == pow2(neg(e1 as int)),
                pp > 0,
                pn > 0,
        ;
        lemma_within_from(n2, d2, i2, neg(e1 as int));
        assert(n2 > 0) by (nonlinear_arith)
            requires
                n2 == s1 * pow10(k as nat) * pp,
                s1 >= 1,
                pow10(k as nat) >= 1,
                pp > 0,
        ;
        lemma_floor_log2_unique(n2, d2, t2 + e1);
    }
    let ghost e2: int = t2 + e1 - 52;
    let sh2: u32 = t2 - 52;
    let s2: u128 = if sh2 == 0 {
        prod
    } else {
        let p2 = pow2_u128(sh2);
        proof {
            lemma_pow2_strictly_increases(0, sh2 as nat);
        }
        round_half_even_exec(prod, p2)
    };
    proof {
        let ghost a = pos(e1 as int) + neg(e2);
        let ghost c = neg(e1 as int) + pos(e2);
        assert(a + sh2 == c);
        lemma_rhe_shift(prod as nat, 1, a, c, 0, sh2 as nat);
        lemma_pow2_adds(pos(e1 as int), neg(e2));
        lemma_pow2_adds(neg(e1 as int), pos(e2));
        assert(n2 * pow2(neg(e2)) == prod * pow2(a)) by (nonlinear_arith)
            requires
                n2 == s1 * pow10(k as nat) * pow2(pos(e1 as int)),
                prod == s1 * pow10(k as nat),
                pow2(a) == pow2(pos(e1 as int)) * pow2(neg(e2)),
        ;
        assert(d2 * pow2(pos(e2)) == 1 * pow2(c));
        assert(prod * pow2(0) == prod);
        assert(1 * pow2(sh2 as nat) == pow2(sh2 as nat));
        if sh2 == 0 {
            assert(round_half_even(prod as nat, 1) == prod) by (nonlinear_arith);
        }
        assert(s2 == nearest_sig(n2, d2));
        lemma_sig_range(n2, d2);
    }
    let e2x: i64 = (t2 as i64) - 52 + e1;
    if e2x >= 12 {
        proof {
            if e2 > 12 {
                lemma_pow2_strictly_increases(12, pos(e2));
            }
            lemma_pow2_adds(52, 12);
            assert(s2 * pow2(pos(e2)) >= pow2(64)) by (nonlinear_arith)
                requires s2 >= pow2(52), pow2(pos(e2)) >= pow2(12), pow2(64) == pow2(52) * pow2(12),
            ;
        }
        return 0xFFFF_FFFF_FFFF_FFFF;
    }
    if e2x >= 0 {
        let w = pow2_u128(e2x as u32);
        proof {
            if e2 < 11 {
                lemma_pow2_strictly_increases(pos(e2), 11);
            }
            lemma_pow2_adds(53, 11);
            assert(s2 * w <= pow2(64)) by (nonlinear_arith)
                requires s2 <= pow2(53), w <= pow2(11), pow2(64) == pow2(53) * pow2(11),
            ;
            assert((s2 as nat) * (w as nat) / pow2(0) == (s2 as nat) * (w as nat));
        }
        let v = s2 * w;
        if v > 0xFFFF_FFFF_FFFF_FFFF {
            return 0xFFFF_FFFF_FFFF_FFFF;
        }
        return v as u64;
    }
    if e2x <= -54 {
        proof {
            if neg(e2) > 54 {
                lemma_pow2_strictly_increases(54, neg(e2));
            }
            lemma_pow2_strictly_increases(53, 54);
            assert((s2 as nat) * pow2(0) / pow2(neg(e2)) == 0) by (nonlinear_arith)
                requires s2 <= pow2(53), pow2(53) < pow2(neg(e2)), pow2(0) == 1,
            ;
        }
        return 0;
    }
    let w = pow2_u128((-e2x) as u32);
    let v = s2 / w;
    proof {
        lemma_pow2_pos(neg(e2));
        assert(v <= s2) by (nonlinear_arith)
            requires v == s2 / w, w >= 1,
        ;
        assert(s2 * pow2(0) == s2);
    }
    v as u64
}

/// `(x * 10^k) as u64` computed as doubles compute it, for `x = i + 0.f`
/// (the digits `f` after the point) read as the nearest double.
pub fn double_scaled_floor(i: u128, f: Vec<char>, k: u64) -> (r: u64)
    requires
        all_digits(f@),
        i < pow10(20),
        (i as nat) * pow10(f@.len()) + digits_value(f@) > 0,
        k <= 12,
    ensures
        r == saturate(
            double_times_pow10((i as nat) * pow10(f@.len()) + digits_value(f@), pow10(f@.len()), k as nat),
        ),
{
    let ghost n: nat = (i as nat) * pow10(f@.len()) + digits_value(f@);
    let ghost d: nat = pow10(f@.len());
    proof {
        lemma_pow10_pos(f@.len());
    }
    match nearest_of(i, f) {
        None => {
            proof {
                lemma_times_pow10_small(n, d, k as nat);
            }
            0
        },
        Some((s1, e1)) => times_pow10_floor(s1, e1, k, Ghost(n), Ghost(d)),
    }
}

} // verus!
