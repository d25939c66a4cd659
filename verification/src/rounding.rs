use vstd::prelude::*;
use vstd::arithmetic::power2::{pow2, lemma_pow2_pos, lemma_pow2_unfold, lemma_pow2_adds, lemma_pow2_strictly_increases};

verus! {

// ---------------------------------------------------------------------------
// Integer rounding
// ---------------------------------------------------------------------------

/// `n / d` rounded to the nearest integer, ties to even.
pub open spec fn round_half_even(n: nat, d: nat) -> nat
    recommends
        d > 0,
{
    let q = n / d;
    let r = n % d;
    if 2 * r > d {
        q + 1
    } else if 2 * r < d {
        q
    } else if q % 2 == 0 {
        q
    } else {
        q + 1
    }
}

/// `n / d` rounded to the nearest integer, ties to even.
pub fn round_half_even_exec(n: u128, d: u128) -> (r: u128)
    requires
        d > 1,
    ensures
        r == round_half_even(n as nat, d as nat),
        n as nat / d as nat <= r <= n as nat / d as nat + 1,
{
    let q = n / d;
    let rem = n % d;
    assert(q * d + rem == n) by (nonlinear_arith)
        requires
            q == n / d,
            rem == n % d,
            d > 1,
    ;
    assert(q + 1 <= 0xFFFF_FFFF_FFFF_FFFF_FFFF_FFFF_FFFF_FFFF) by (nonlinear_arith)
        requires
            q * d + rem == n,
            d > 1,
            n <= 0xFFFF_FFFF_FFFF_FFFF_FFFF_FFFF_FFFF_FFFF,
            rem >= 0,
    ;
    if rem > d - rem {
        q + 1
    } else if rem < d - rem {
        q
    } else if q % 2 == 0 {
        q
    } else {
        q + 1
    }
}

// ---------------------------------------------------------------------------
// Binary doubles
// ---------------------------------------------------------------------------

/// The largest `t` with `2^t * d <= n`; 0 when `n < 2 * d`.
pub open spec fn log2_ratio(n: nat, d: nat) -> nat
    decreases n - d,
{
    if d == 0 || n < 2 * d {
        0
    } else {
        1 + log2_ratio(n, 2 * d)
    }
}

/// The value of the integer `n` as the nearest binary double: `n` itself
/// below 2^53, else `n` rounded to 53 significant bits, halves to even.
pub open spec fn as_double(n: nat) -> nat {
    if n < pow2(53) {
        n
    } else {
        let sh = (log2_ratio(n, 1) - 52) as nat;
        round_half_even(n, pow2(sh)) * pow2(sh)
    }
}

/// The scale of the double nearest to `n / d` (for `d <= n < 2^53 * d`):
/// that double is its significand divided by `2^scale`.
pub open spec fn quotient_scale(n: nat, d: nat) -> nat {
    (52 - log2_ratio(n, d)) as nat
}

/// The significand of the double nearest to `n / d`: the quotient scaled to
/// 53 bits and rounded, halves to even.
pub open spec fn quotient_significand(n: nat, d: nat) -> nat {
    round_half_even(n * pow2(quotient_scale(n, d)), d)
}

/// The double nearest to `n / d`, times `10^places`, rounded to an integer,
/// halves to even: the digits of that double shown with `places` decimals.
pub open spec fn shown_digits(n: nat, d: nat, places: nat) -> nat {
    round_half_even(
        quotient_significand(n, d) * crate::decimal::pow10(places),
        pow2(quotient_scale(n, d)),
    )
}

/// `2^e` as a `u128`.
fn pow2_exec(e: u32) -> (r: u128)
    requires
        e <= 100,
    ensures
        r == pow2(e as nat),
{
    let mut r: u128 = 1;
    let mut i: u32 = 0;
    proof {
        vstd::arithmetic::power2::lemma2_to64();
    }
    while i < e
        invariant
            i <= e <= 100,
            r == pow2(i as nat),
        decreases e - i,
    {
        proof {
            lemma_pow2_unfold((i + 1) as nat);
            lemma_pow2_strictly_increases((i + 1) as nat, 101);
            assert(pow2(101) <= 0x1_0000_0000_0000_0000_0000_0000_0000_0000) by {
                lemma_pow2_below(101);
            }
        }
        r = r * 2;
        i += 1;
    }
    r
}

/// `2^e < 2^128` for `e < 128`.
proof fn lemma_pow2_below(e: nat)
    requires
        e < 128,
    ensures
        pow2(e) <= 0x8000_0000_0000_0000_0000_0000_0000_0000,
{
    if e < 127 {
        lemma_pow2_strictly_increases(e, 127);
    }
    lemma_pow2_127();
}

proof fn lemma_pow2_127()
    ensures
        pow2(127) == 0x8000_0000_0000_0000_0000_0000_0000_0000,
{
    vstd::arithmetic::power2::lemma2_to64();
    vstd::arithmetic::power2::lemma2_to64_rest();
    lemma_pow2_adds(64, 63);
}

/// The largest `t` with `2^t * d <= n`, and `2^t * d`.
fn log2_ratio_exec(n: u128, d: u128) -> (r: (u32, u128))
    requires
        0 < d <= n,
        n <= 0x1_0000_0000_0000_0000_0000_0000,
    ensures
        r.0 == log2_ratio(n as nat, d as nat),
        r.1 == pow2(r.0 as nat) * d,
        r.1 <= n < 2 * r.1,
        r.0 <= 96,
{
    let mut t: u32 = 0;
    let mut p: u128 = d;
    proof {
        vstd::arithmetic::power2::lemma2_to64();
    }
    while p <= n / 2
        invariant
            0 < d <= p <= n,
            n <= 0x1_0000_0000_0000_0000_0000_0000,
            p == pow2(t as nat) * d,
            log2_ratio(n as nat, d as nat) == t + log2_ratio(n as nat, p as nat),
            t <= 96,
        decreases n - p,
    {
        proof {
            lemma_pow2_unfold((t + 1) as nat);
            assert(pow2((t + 1) as nat) * d == 2 * p) by (nonlinear_arith)
                requires
                    pow2((t + 1) as nat) == 2 * pow2(t as nat),
                    p == pow2(t as nat) * d,
            ;
            if t + 1 > 96 {
                lemma_pow2_strictly_increases(96, (t + 1) as nat);
                lemma_pow2_96();
                assert(pow2((t + 1) as nat) * d >= pow2((t + 1) as nat)) by (nonlinear_arith)
                    requires
                        d >= 1,
                ;
            }
        }
        p = p * 2;
        t = t + 1;
    }
    (t, p)
}

proof fn lemma_pow2_96()
    ensures
        pow2(96) == 0x1_0000_0000_0000_0000_0000_0000,
{
    vstd::arithmetic::power2::lemma2_to64();
    vstd::arithmetic::power2::lemma2_to64_rest();
    lemma_pow2_adds(64, 32);
}

/// The value of `n as` a binary double.
pub fn as_double_exec(n: u64) -> (r: u128)
    ensures
        r == as_double(n as nat),
        r <= 0x2_0000_0000_0000_0000,
        n as nat >= pow2(53) ==> r >= pow2(53),
{
    proof {
        vstd::arithmetic::power2::lemma2_to64();
        vstd::arithmetic::power2::lemma2_to64_rest();
        lemma_pow2_adds(32, 21);
    }
    if n < 0x20_0000_0000_0000 {
        return n as u128;
    }
    let (t, p) = log2_ratio_exec(n as u128, 1);
    proof {
        assert(p == pow2(t as nat));
        if t <= 52 {
            if t < 53 {
                lemma_pow2_strictly_increases(t as nat, 53);
            }
        }
        if t >= 64 {
            if t > 64 {
                lemma_pow2_strictly_increases(64, t as nat);
            }
        }
    }
    let sh: u32 = t - 52;
    let pw = pow2_exec(sh);
    proof {
        lemma_pow2_strictly_increases(0, sh as nat);
        lemma_pow2_strictly_increases(sh as nat, 12);
        lemma_pow2_adds(sh as nat, 52);
    }
    let nn: u128 = n as u128;
    let q = round_half_even_exec(nn, pw);
    proof {
        assert(q * pw <= nn + pw) by (nonlinear_arith)
            requires
                q <= nn / pw + 1,
                pw > 1,
        ;
        assert(nn / pw >= pow2(52)) by (nonlinear_arith)
            requires
                pw * pow2(52) == p,
                p <= nn,
                pw > 0,
        ;
        assert(q * pw >= p) by (nonlinear_arith)
            requires
                q >= nn / pw,
                nn / pw >= pow2(52),
                pw * pow2(52) == p,
                pw > 0,
        ;
        lemma_pow2_strictly_increases(52, t as nat);
        lemma_pow2_unfold(53);
    }
    q * pw
}

/// The digits of `n / d` as a binary double shown with `places` decimals.
pub fn shown_digits_exec(n: u128, d: u128, places: u32) -> (r: u64)
    requires
        1000 <= d <= n,
        n <= 0x2_0000_0000_0000_0000,
        n < d * pow2(36),
        places == 1 || places == 2,
    ensures
        r == shown_digits(n as nat, d as nat, places as nat),
{
    let (t, p) = log2_ratio_exec(n, d);
    assert(t < 36) by {
        if t >= 36 {
            if t > 36 {
                lemma_pow2_strictly_increases(36, t as nat);
            }
            assert(p >= d * pow2(36)) by (nonlinear_arith)
                requires
                    p == pow2(t as nat) * d,
                    pow2(t as nat) >= pow2(36),
                    d > 0,
            ;
            assert(false);
        }
    }
    let k: u32 = 52 - t;
    let pk = pow2_exec(k);
    proof {
        lemma_pow2_adds((t + 1) as nat, k as nat);
        lemma_pow2_unfold((t + 1) as nat);
        lemma2_to64_values();
        vstd::arithmetic::power2::lemma2_to64();
        lemma_pow2_strictly_increases(k as nat, 53);
        lemma_pow2_strictly_increases(16, k as nat);
        if k > 17 {
            lemma_pow2_strictly_increases(17, k as nat);
        }
        let a = pow2(t as nat);
        assert(pow2(53) == 2 * a * pk);
        assert(n * pk < 2 * p * pk) by (nonlinear_arith)
            requires
                n < 2 * p,
                pk > 0,
        ;
        assert(2 * p * pk == pow2(53) * d) by (nonlinear_arith)
            requires
                p == a * d,
                pow2(53) == 2 * a * pk,
        ;
    }
    let m = n * pk;
    let s = round_half_even_exec(m, d);
    proof {
        assert(m / d < pow2(53)) by (nonlinear_arith)
            requires
                m < pow2(53) * d,
                d > 0,
        ;
    }
    let scale: u128 = if places == 1 { 10 } else { 100 };
    proof {
        reveal_with_fuel(crate::decimal::pow10, 3);
        assert(scale == crate::decimal::pow10(places as nat));
    }
    let scaled = s * scale;
    let digits = round_half_even_exec(scaled, pk);
    proof {
        assert(scaled / pk <= 0x1_0000_0000_0000) by (nonlinear_arith)
            requires
                scaled <= pow2(53) * 100,
                pk >= pow2(17),
                pow2(53) == 0x20_0000_0000_0000,
                pow2(17) == 0x2_0000,
        ;
    }
    digits as u64
}

proof fn lemma2_to64_values()
    ensures
        pow2(17) == 0x2_0000,
        pow2(53) == 0x20_0000_0000_0000,
        pow2(36) == 0x10_0000_0000,
{
    vstd::arithmetic::power2::lemma2_to64();
    vstd::arithmetic::power2::lemma2_to64_rest();
    lemma_pow2_adds(32, 21);
    lemma_pow2_adds(32, 4);
}

} // verus!
