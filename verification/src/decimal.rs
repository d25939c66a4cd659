use vstd::prelude::*;
use crate::text::{is_digit, digit_val, all_digits, digits_value};
use vstd::arithmetic::power2::pow2;
use crate::binary::{pos, neg, saturate, double_times_pow10, double_scaled_floor, lemma_times_pow10_big, lemma_times_pow10_small};

verus! {

// ---------------------------------------------------------------------------
// Powers of ten and digit strings
// ---------------------------------------------------------------------------

pub open spec fn pow10(n: nat) -> nat
    decreases n,
{
    if n == 0 {
        1
    } else {
        10 * pow10((n - 1) as nat)
    }
}

pub proof fn lemma_pow10_pos(n: nat)
    ensures
        pow10(n) >= 1,
    decreases n,
{
    if n > 0 {
        lemma_pow10_pos((n - 1) as nat);
    }
}

pub proof fn lemma_pow10_adds(a: nat, b: nat)
    ensures
        pow10(a + b) == pow10(a) * pow10(b),
    decreases b,
{
    if b > 0 {
        lemma_pow10_adds(a, (b - 1) as nat);
        assert((a + b - 1) as nat == a + (b - 1) as nat);
        assert(pow10(a + b) == 10 * pow10((a + b - 1) as nat));
        assert(pow10(b) == 10 * pow10((b - 1) as nat));
        assert(pow10(a) * pow10(b) == pow10(a) * (10 * pow10((b - 1) as nat)));
        assert(pow10(a) * (10 * pow10((b - 1) as nat)) == 10 * (pow10(a) * pow10((b - 1) as nat)))
            by (nonlinear_arith);
    } else {
        assert(pow10(0) == 1);
        assert(a + b == a);
    }
}

pub proof fn lemma_pow10_mono(a: nat, b: nat)
    requires
        a <= b,
    ensures
        pow10(a) <= pow10(b),
{
    lemma_pow10_adds(a, (b - a) as nat);
    lemma_pow10_pos((b - a) as nat);
    lemma_pow10_pos(a);
    assert(pow10(a) * pow10((b - a) as nat) >= pow10(a)) by (nonlinear_arith)
        requires pow10((b - a) as nat) >= 1, pow10(a) >= 1,
    ;
    assert(a + (b - a) as nat == b);
}

pub proof fn lemma_pow10_20()
    ensures
        pow10(20) == 100_000_000_000_000_000_000,
        pow10(19) == 10_000_000_000_000_000_000,
{
    reveal_with_fuel(pow10, 21);
}

/// The value of a concatenation of digit strings.
pub proof fn lemma_digits_concat(a: Seq<char>, b: Seq<char>)
    ensures
        digits_value(a + b) == digits_value(a) * pow10(b.len()) + digits_value(b),
    decreases b.len(),
{
    if b.len() == 0 {
        assert(a + b =~= a);
        assert(pow10(0) == 1);
        assert(digits_value(b) == 0);
    } else {
        let b1 = b.drop_last();
        assert((a + b).drop_last() =~= a + b1);
        lemma_digits_concat(a, b1);
        assert((a + b).last() == b.last());
        let x = digits_value(a);
        let p = pow10(b1.len());
        assert(pow10(b.len()) == 10 * p);
        assert(digits_value(a + b) == digits_value(a + b1) * 10 + digit_val(b.last()));
        assert(digits_value(b) == digits_value(b1) * 10 + digit_val(b.last()));
        assert((x * p + digits_value(b1)) * 10 + digit_val(b.last()) == x * (10 * p) + (
        digits_value(b1) * 10 + digit_val(b.last()))) by (nonlinear_arith);
    }
}

pub proof fn lemma_digits_bound(s: Seq<char>)
    requires
        all_digits(s),
    ensures
        digits_value(s) < pow10(s.len()),
    decreases s.len(),
{
    if s.len() > 0 {
        let s1 = s.drop_last();
        assert(all_digits(s1)) by {
            assert forall|i: int| 0 <= i < s1.len() implies is_digit(#[trigger] s1[i]) by {
                assert(s1[i] == s[i]);
            }
        }
        lemma_digits_bound(s1);
        assert(is_digit(s[s.len() - 1]));
        assert(digits_value(s1) * 10 + digit_val(s.last()) < 10 * pow10(s1.len())) by (
        nonlinear_arith)
            requires digits_value(s1) < pow10(s1.len()), digit_val(s.last()) <= 9,
        ;
    }
}

pub proof fn lemma_digits_lead(s: Seq<char>)
    requires
        all_digits(s),
        s.len() >= 1,
        s[0] != '0',
    ensures
        digits_value(s) >= pow10((s.len() - 1) as nat),
{
    let h = s.take(1);
    let t = s.skip(1);
    assert(s =~= h + t);
    lemma_digits_concat(h, t);
    assert(h.drop_last() =~= Seq::<char>::empty());
    assert(h.last() == s[0]);
    assert(digits_value(h.drop_last()) == 0);
    assert(digits_value(h) == digit_val(s[0]));
    assert(is_digit(s[0]));
    assert(digit_val(s[0]) >= 1);
    lemma_pow10_pos(t.len());
    assert(digits_value(h) * pow10(t.len()) >= pow10(t.len())) by (nonlinear_arith)
        requires digits_value(h) >= 1, pow10(t.len()) >= 1,
    ;
}

pub proof fn lemma_zero_digits(s: Seq<char>)
    requires
        forall|i: int| 0 <= i < s.len() ==> s[i] == '0',
    ensures
        digits_value(s) == 0,
    decreases s.len(),
{
    if s.len() > 0 {
        lemma_zero_digits(s.drop_last());
    }
}

// ---------------------------------------------------------------------------
// The text that `f64::from_str` reads
// ---------------------------------------------------------------------------

pub open spec fn ascii_lower(c: char) -> char {
    if 'A' <= c && c <= 'Z' {
        ((c as u32 + 32) as u8) as char
    } else {
        c
    }
}

/// `b` equals the lower-case word `w`, ignoring ASCII case.
pub open spec fn eq_ignore_case(b: Seq<char>, w: Seq<char>) -> bool {
    b.len() == w.len() && forall|i: int| 0 <= i < b.len() ==> ascii_lower(#[trigger] b[i]) == w[i]
}

pub open spec fn sign_len(s: Seq<char>) -> nat {
    if s.len() > 0 && (s[0] == '+' || s[0] == '-') {
        1
    } else {
        0
    }
}

pub open spec fn negative(s: Seq<char>) -> bool {
    s.len() > 0 && s[0] == '-'
}

/// The text after the sign.
pub open spec fn body(s: Seq<char>) -> Seq<char> {
    s.skip(sign_len(s) as int)
}

pub open spec fn is_inf_word(b: Seq<char>) -> bool {
    eq_ignore_case(b, "inf"@) || eq_ignore_case(b, "infinity"@)
}

pub open spec fn is_nan_word(b: Seq<char>) -> bool {
    eq_ignore_case(b, "nan"@)
}

/// The number of leading ASCII digits.
pub open spec fn digit_run(s: Seq<char>) -> nat
    decreases s.len(),
{
    if s.len() > 0 && is_digit(s[0]) {
        1 + digit_run(s.drop_first())
    } else {
        0
    }
}

pub open spec fn has_point(b: Seq<char>) -> bool {
    digit_run(b) < b.len() && b[digit_run(b) as int] == '.'
}

/// The number of digits after the decimal point.
pub open spec fn frac_run(b: Seq<char>) -> nat {
    if has_point(b) {
        digit_run(b.skip(digit_run(b) + 1int))
    } else {
        0
    }
}

/// Where the digits (and the point) end.
pub open spec fn mantissa_end(b: Seq<char>) -> nat {
    if has_point(b) {
        digit_run(b) + 1 + frac_run(b)
    } else {
        digit_run(b)
    }
}

/// All the digits of the mantissa, integer part and fraction, without the point.
pub open spec fn mantissa_digits(b: Seq<char>) -> Seq<char> {
    if has_point(b) {
        b.take(digit_run(b) as int) + b.subrange(digit_run(b) + 1int, mantissa_end(b) as int)
    } else {
        b.take(digit_run(b) as int)
    }
}

pub open spec fn exp_text(b: Seq<char>) -> Seq<char> {
    b.skip(mantissa_end(b) as int)
}

/// The digits of the exponent, after `e` and its sign.
pub open spec fn exp_digits(e: Seq<char>) -> Seq<char> {
    e.skip(1int + sign_len(e.skip(1)))
}

pub open spec fn exp_ok(e: Seq<char>) -> bool {
    e.len() == 0 || ((e[0] == 'e' || e[0] == 'E') && exp_digits(e).len() >= 1 && all_digits(
        exp_digits(e),
    ))
}

pub open spec fn exp_value(b: Seq<char>) -> int {
    let e = exp_text(b);
    if e.len() == 0 {
        0
    } else if negative(e.skip(1)) {
        -digits_value(exp_digits(e))
    } else {
        digits_value(exp_digits(e)) as int
    }
}

pub open spec fn number_ok(b: Seq<char>) -> bool {
    digit_run(b) + frac_run(b) >= 1 && exp_ok(exp_text(b))
}

/// Text that `f64::from_str` accepts: a sign, then `inf`, `infinity` or `nan`
/// in any case, or digits with an optional point and an optional exponent.
pub open spec fn float_text(s: Seq<char>) -> bool {
    let b = body(s);
    is_inf_word(b) || is_nan_word(b) || number_ok(b)
}

pub const U64_MAX_NAT: u64 = 0xFFFF_FFFF_FFFF_FFFF;

/// `(s.parse::<f64>() * 10^k) as u64` for `k <= 12`: the number written by `s`
/// read as the nearest double, multiplied by `10^k` as doubles multiply,
/// truncated toward zero and held in `u64` as `as u64` does (NaN and
/// negatives give 0, larger values `u64::MAX`). The rounding is modelled with
/// an unbounded exponent; past the range of `f64` (infinity, subnormals) the
/// result is the same saturated or zero value.
pub open spec fn scaled_u64(s: Seq<char>, k: nat) -> nat {
    let b = body(s);
    if is_nan_word(b) {
        0
    } else if negative(s) {
        0
    } else if is_inf_word(b) {
        U64_MAX_NAT as nat
    } else {
        decimal_times_pow10(digits_value(mantissa_digits(b)), exp_value(b) - frac_run(b), k)
    }
}


// ---------------------------------------------------------------------------
// Reading such text
// ---------------------------------------------------------------------------

pub proof fn lemma_digit_run(s: Seq<char>)
    ensures
        digit_run(s) <= s.len(),
        all_digits(s.take(digit_run(s) as int)),
        digit_run(s) < s.len() ==> !is_digit(s[digit_run(s) as int]),
        all_digits(s) <==> digit_run(s) == s.len(),
    decreases s.len(),
{
    if s.len() > 0 && is_digit(s[0]) {
        let t = s.drop_first();
        lemma_digit_run(t);
        assert forall|i: int| 0 <= i < digit_run(s) implies is_digit(
            #[trigger] s.take(digit_run(s) as int)[i],
        ) by {
            if i > 0 {
                assert(s.take(digit_run(s) as int)[i] == t.take(digit_run(t) as int)[i - 1]);
            }
        }
        if digit_run(s) < s.len() {
            assert(s[digit_run(s) as int] == t[digit_run(t) as int]);
        }
        if all_digits(s) {
            assert(all_digits(t)) by {
                assert forall|i: int| 0 <= i < t.len() implies is_digit(#[trigger] t[i]) by {
                    assert(t[i] == s[i + 1]);
                }
            }
        }
        if digit_run(s) == s.len() {
            assert forall|i: int| 0 <= i < s.len() implies is_digit(#[trigger] s[i]) by {
                assert(s.take(digit_run(s) as int)[i] == s[i]);
            }
        }
    } else {
        assert(s.take(0) =~= Seq::<char>::empty());
        if s.len() > 0 {
            assert(!is_digit(s[0]));
        }
    }
}

/// The end of the run of ASCII digits that starts at `start`.
fn digit_run_from(v: &Vec<char>, start: usize) -> (r: usize)
    requires
        start <= v.len(),
    ensures
        start <= r <= v.len(),
        r - start == digit_run(v@.skip(start as int)),
{
    let mut i = start;
    while i < v.len() && '0' <= v[i] && v[i] <= '9'
        invariant
            start <= i <= v.len(),
            digit_run(v@.skip(start as int)) == (i - start) + digit_run(v@.skip(i as int)),
        decreases v.len() - i,
    {
        assert(v@.skip(i as int)[0] == v@[i as int]);
        assert(v@.skip(i as int).drop_first() =~= v@.skip(i + 1));
        i += 1;
    }
    if i < v.len() {
        assert(v@.skip(i as int)[0] == v@[i as int]);
    }
    i
}

fn eq_ignore_case_exec(b: &Vec<char>, w: &str) -> (r: bool)
    ensures
        r == eq_ignore_case(b@, w@),
{
    let wv = crate::text::chars_of(w);
    if b.len() != wv.len() {
        return false;
    }
    let mut i: usize = 0;
    while i < b.len()
        invariant
            i <= b.len() == wv.len(),
            wv@ == w@,
            forall|j: int| 0 <= j < i ==> ascii_lower(#[trigger] b@[j]) == wv@[j],
        decreases b.len() - i,
    {
        let c = b[i];
        let lc = if 'A' <= c && c <= 'Z' { ((c as u32 + 32) as u8) as char } else { c };
        assert(lc == ascii_lower(c));
        if lc != wv[i] {
            return false;
        }
        i += 1;
    }
    true
}

/// The sign length, the text after the sign, and where its mantissa ends.
struct Layout {
    sign: usize,
    body: Vec<char>,
    int_end: usize,
    point: bool,
    frac: usize,
    mend: usize,
}

fn layout_of(tok: &Vec<char>) -> (l: Layout)
    ensures
        l.sign == sign_len(tok@),
        l.body@ == body(tok@),
        l.int_end == digit_run(body(tok@)),
        l.point == has_point(body(tok@)),
        l.frac == frac_run(body(tok@)),
        l.mend == mantissa_end(body(tok@)),
        l.mend <= l.body.len(),
{
    let sign: usize = if tok.len() > 0 && (tok[0] == '+' || tok[0] == '-') { 1 } else { 0 };
    let b = crate::text::slice_of(tok, sign, tok.len());
    assert(b@ =~= body(tok@));
    let d1 = digit_run_from(&b, 0);
    assert(b@.skip(0) =~= b@);
    let point = d1 < b.len() && b[d1] == '.';
    let (frac, mend) = if point {
        let e = digit_run_from(&b, d1 + 1);
        (e - (d1 + 1), e)
    } else {
        (0, d1)
    };
    Layout { sign, body: b, int_end: d1, point, frac, mend }
}

/// Whether `f64::from_str` accepts the text.
pub fn is_float_text(tok: &Vec<char>) -> (r: bool)
    ensures
        r == float_text(tok@),
{
    let l = layout_of(tok);
    let b = &l.body;
    if eq_ignore_case_exec(b, "inf") || eq_ignore_case_exec(b, "infinity") || eq_ignore_case_exec(
        b,
        "nan",
    ) {
        return true;
    }
    if l.int_end + l.frac < 1 {
        return false;
    }
    let ghost e = exp_text(b@);
    if l.mend == b.len() {
        assert(e.len() == 0);
        return true;
    }
    assert(e[0] == b@[l.mend as int]);
    if b[l.mend] != 'e' && b[l.mend] != 'E' {
        return false;
    }
    let es = l.mend + 1;
    let es2 = if es < b.len() && (b[es] == '+' || b[es] == '-') { es + 1 } else { es };
    assert(e.skip(1) =~= b@.skip(es as int));
    assert(exp_digits(e) =~= b@.skip(es2 as int));
    if es2 >= b.len() {
        return false;
    }
    let dr = digit_run_from(b, es2);
    proof {
        lemma_digit_run(b@.skip(es2 as int));
    }
    dr == b.len()
}


/// The cap on exponent magnitudes past which the result is decided by the sign alone.
pub open spec fn exp_cap() -> nat {
    0x2_0000_0000_0000_0000
}

fn mantissa_vec(l: &Layout) -> (d: Vec<char>)
    requires
        l.int_end == digit_run(l.body@),
        l.point == has_point(l.body@),
        l.frac == frac_run(l.body@),
        l.mend == mantissa_end(l.body@),
        l.mend <= l.body.len(),
    ensures
        d@ == mantissa_digits(l.body@),
        all_digits(d@),
        d.len() == l.int_end + l.frac,
{
    let b = &l.body;
    proof {
        lemma_digit_run(b@);
    }
    let mut d = crate::text::slice_of(b, 0, l.int_end);
    assert(d@ =~= b@.take(digit_run(b@) as int));
    if l.point {
        let ghost t = b@.skip(l.int_end + 1);
        proof {
            lemma_digit_run(t);
        }
        let f = crate::text::slice_of(b, l.int_end + 1, l.mend);
        assert(f@ =~= t.take(digit_run(t) as int));
        let ghost d0 = d@;
        crate::text::extend(&mut d, &f);
        assert forall|i: int| 0 <= i < d@.len() implies is_digit(#[trigger] d@[i]) by {
            if i < d0.len() {
                assert(d@[i] == d0[i]);
            } else {
                assert(d@[i] == f@[i - d0.len()]);
            }
        }
    }
    d
}

/// The exponent of a number text: whether it is negative and its magnitude,
/// capped at `exp_cap()`.
fn exponent_of(b: &Vec<char>, mend: usize) -> (r: (bool, u128))
    requires
        mend <= b.len(),
        mend == mantissa_end(b@),
        exp_ok(exp_text(b@)),
    ensures
        exp_text(b@).len() == 0 ==> r == (false, 0u128),
        exp_text(b@).len() > 0 ==> r.0 == negative(exp_text(b@).skip(1)) && r.1 == if digits_value(
            exp_digits(exp_text(b@)),
        ) >= exp_cap() {
            exp_cap()
        } else {
            digits_value(exp_digits(exp_text(b@)))
        },
{
    let ghost e = exp_text(b@);
    if mend == b.len() {
        return (false, 0);
    }
    let es = mend + 1;
    let neg = es < b.len() && b[es] == '-';
    let es2 = if es < b.len() && (b[es] == '+' || b[es] == '-') { es + 1 } else { es };
    assert(e.skip(1) =~= b@.skip(es as int));
    let ghost ed = exp_digits(e);
    assert(ed =~= b@.skip(es2 as int));
    let cap: u128 = 0x2_0000_0000_0000_0000;
    let mut acc: u128 = 0;
    let mut i = es2;
    while i < b.len()
        invariant
            es2 <= i <= b.len(),
            ed == b@.skip(es2 as int),
            all_digits(ed),
            cap == exp_cap(),
            acc == if digits_value(ed.take(i - es2)) >= exp_cap() {
                exp_cap()
            } else {
                digits_value(ed.take(i - es2))
            },
        decreases b.len() - i,
    {
        let ghost pre = ed.take(i - es2);
        let ghost nxt = ed.take(i - es2 + 1);
        assert(nxt.drop_last() =~= pre);
        assert(nxt.last() == b@[i as int]);
        assert(is_digit(ed[i - es2]));
        let dv = (b[i] as u32 - 48u32) as u128;
        if acc >= cap {
            assert(digits_value(nxt) >= digits_value(pre));
            acc = cap;
        } else {
            let next = acc * 10 + dv;
            acc = if next >= cap { cap } else { next };
        }
        i += 1;
    }
    assert(ed.take(i - es2) =~= ed);
    (neg, acc)
}

pub(crate) fn pow10_exec(n: u32) -> (r: u128)
    requires
        n <= 20,
    ensures
        r == pow10(n as nat),
{
    let mut r: u128 = 1;
    let mut i: u32 = 0;
    while i < n
        invariant
            i <= n <= 20,
            r == pow10(i as nat),
        decreases n - i,
    {
        proof {
            lemma_pow10_mono(i as nat, 19);
            lemma_pow10_20();
        }
        r = r * 10;
        i += 1;
    }
    r
}

/// The value of at most twenty digits.
fn small_value(v: &Vec<char>, from: usize, to: usize) -> (r: u128)
    requires
        from <= to <= v.len(),
        to - from <= 20,
        all_digits(v@.subrange(from as int, to as int)),
    ensures
        r == digits_value(v@.subrange(from as int, to as int)),
        r < pow10((to - from) as nat),
{
    let ghost s = v@.subrange(from as int, to as int);
    let mut acc: u128 = 0;
    let mut i = from;
    while i < to
        invariant
            from <= i <= to <= v.len(),
            to - from <= 20,
            s == v@.subrange(from as int, to as int),
            all_digits(s),
            acc == digits_value(s.take(i - from)),
            acc < pow10((i - from) as nat),
        decreases to - i,
    {
        let ghost pre = s.take(i - from);
        let ghost nxt = s.take(i - from + 1);
        assert(nxt.drop_last() =~= pre);
        assert(nxt.last() == v@[i as int]);
        assert(is_digit(s[i - from]));
        let dv = (v[i] as u32 - 48u32) as u128;
        proof {
            lemma_pow10_mono((i - from) as nat, 19);
            lemma_pow10_20();
        }
        acc = acc * 10 + dv;
        i += 1;
    }
    assert(s.take(to - from) =~= s);
    acc
}


/// A positive `m * 10^e` of at least `10^20` is at least `2^64`.
proof fn lemma_decimal_big(m: nat, len: nat, e: int)
    requires
        len >= 1,
        m >= pow10((len - 1) as nat),
        len + e > 20,
    ensures
        m * pow10(pos(e)) >= pow2(64) * pow10(neg(e)),
{
    let a = ((len - 1) as nat + pos(e)) as nat;
    let c = (20 + neg(e)) as nat;
    assert(a >= c);
    lemma_pow10_adds((len - 1) as nat, pos(e));
    lemma_pow10_adds(20, neg(e));
    lemma_pow10_mono(c, a);
    lemma_pow10_pos(pos(e));
    lemma_pow10_pos(neg(e));
    lemma_pow10_20();
    lemma_pow2_64_below();
    assert(m * pow10(pos(e)) >= pow10((len - 1) as nat) * pow10(pos(e))) by (nonlinear_arith)
        requires m >= pow10((len - 1) as nat), pow10(pos(e)) >= 1,
    ;
    assert(pow2(64) * pow10(neg(e)) <= pow10(20) * pow10(neg(e))) by (nonlinear_arith)
        requires pow2(64) <= pow10(20), pow10(neg(e)) >= 1,
    ;
}

/// A positive `m * 10^e` below `10^-13` is below `2^-44`.
proof fn lemma_decimal_small(m: nat, len: nat, e: int)
    requires
        m < pow10(len),
        len + e < -13,
    ensures
        e < 0,
        m * pow10(pos(e)) * pow2(44) < pow10(neg(e)),
{
    assert(pos(e) == 0);
    assert(pow10(0) == 1);
    let c = (len + 14) as nat;
    assert(neg(e) >= c);
    lemma_pow10_adds(len, 14);
    lemma_pow10_mono(c, neg(e));
    lemma_pow2_44_below();
    assert(m * pow2(44) < pow10(len) * pow10(14)) by (nonlinear_arith)
        requires m < pow10(len), pow2(44) < pow10(14), pow2(44) > 0,
    ;
}

proof fn lemma_pow2_64_below()
    ensures
        pow2(64) <= pow10(20),
{
    vstd::arithmetic::power2::lemma2_to64();
    vstd::arithmetic::power2::lemma2_to64_rest();
    lemma_pow10_20();
}

proof fn lemma_pow2_44_below()
    ensures
        pow2(44) < pow10(14),
        pow2(44) > 0,
{
    vstd::arithmetic::power2::lemma2_to64();
    vstd::arithmetic::power2::lemma2_to64_rest();
    reveal_with_fuel(pow10, 15);
}

/// `m * 10^e` read as the nearest double, times `10^k` as doubles multiply,
/// truncated toward zero and held in `u64` as `as u64` holds it.
pub open spec fn decimal_times_pow10(m: nat, e: int, k: nat) -> nat {
    if m == 0 {
        0
    } else {
        saturate(double_times_pow10(m * pow10(pos(e)), pow10(neg(e)), k))
    }
}

/// The value of a digit string with a (capped) exponent, read as a double
/// and multiplied by `10^k`.
#[verifier::spinoff_prover]
#[verifier::rlimit(40)]
fn scale_digits(
    d: &Vec<char>,
    eneg: bool,
    eabs: u128,
    frac: usize,
    k: u64,
    Ghost(ev): Ghost<int>,
) -> (r: u64)
    requires
        all_digits(d@),
        k <= 12,
        frac <= d.len(),
        eabs <= exp_cap(),
        eabs < exp_cap() ==> ev == (if eneg {
            -(eabs as int)
        } else {
            eabs as int
        }),
        eabs == exp_cap() ==> (eneg ==> ev <= -(exp_cap() as int)) && (!eneg ==> ev >= exp_cap()),
    ensures
        r == decimal_times_pow10(digits_value(d@), ev - frac, k as nat),
{
    let ghost e: int = ev - frac;
    let mut z: usize = 0;
    while z < d.len() && d[z] == '0'
        invariant
            z <= d.len(),
            forall|i: int| 0 <= i < z ==> d@[i] == '0',
        decreases d.len() - z,
    {
        z += 1;
    }
    let ghost dz = d@.skip(z as int);
    proof {
        assert(d@ =~= d@.take(z as int) + dz);
        lemma_digits_concat(d@.take(z as int), dz);
        lemma_zero_digits(d@.take(z as int));
        assert(all_digits(dz)) by {
            assert forall|i: int| 0 <= i < dz.len() implies is_digit(#[trigger] dz[i]) by {
                assert(dz[i] == d@[z + i]);
            }
        }
        assert(0 * pow10(dz.len()) == 0);
        assert(digits_value(d@) == digits_value(dz));
    }
    if z == d.len() {
        assert(dz.len() == 0);
        return 0;
    }
    let len: usize = d.len() - z;
    let ghost m = digits_value(dz);
    proof {
        assert(dz[0] == d@[z as int]);
        lemma_digits_lead(dz);
        lemma_digits_bound(dz);
        lemma_pow10_pos((len - 1) as nat);
    }
    let e_i: i128 = if eneg { -(eabs as i128) } else { eabs as i128 };
    let p: i128 = (len as i128) + e_i - (frac as i128);
    if (eabs == 0x2_0000_0000_0000_0000 && !eneg) || (eabs < 0x2_0000_0000_0000_0000 && p > 20) {
        proof {
            lemma_decimal_big(m, len as nat, e);
            lemma_pow10_pos(pos(e));
            lemma_pow10_pos(neg(e));
            assert(m * pow10(pos(e)) > 0) by (nonlinear_arith)
                requires m >= 1, pow10(pos(e)) >= 1,
            ;
            lemma_times_pow10_big(m * pow10(pos(e)), pow10(neg(e)), k as nat);
            vstd::arithmetic::power2::lemma2_to64();
            vstd::arithmetic::power2::lemma2_to64_rest();
        }
        return 0xFFFF_FFFF_FFFF_FFFF;
    }
    if eabs == 0x2_0000_0000_0000_0000 || p < -13 {
        proof {
            lemma_decimal_small(m, len as nat, e);
            lemma_pow10_pos(neg(e));
            assert(m * pow10(pos(e)) > 0) by (nonlinear_arith)
                requires m >= 1, pow10(pos(e)) >= 1,
            ;
            lemma_times_pow10_small(m * pow10(pos(e)), pow10(neg(e)), k as nat);
        }
        return 0;
    }
    assert(p == len + e);
    proof {
        lemma_pow10_20();
    }
    if p >= len as i128 {
        // no digits after the point
        let ee = (p - len as i128) as u32;
        let mv = small_value(d, z, d.len());
        assert(d@.subrange(z as int, d.len() as int) =~= dz);
        let pw = pow10_exec(ee);
        proof {
            lemma_pow10_pos(ee as nat);
            lemma_pow10_adds(len as nat, ee as nat);
            lemma_pow10_mono(p as nat, 20);
            assert(mv * pw < pow10(len as nat) * pw) by (nonlinear_arith)
                requires mv < pow10(len as nat), pw >= 1,
            ;
            lemma_pow10_pos(ee as nat);
        }
        let ip: u128 = mv * pw;
        let f: Vec<char> = Vec::new();
        proof {
            assert(f@.len() == 0);
            assert(pow10(0) == 1);
            assert(digits_value(f@) == 0);
            assert(pos(e) == ee && neg(e) == 0);
            assert(ip * pow10(0) + 0 > 0) by (nonlinear_arith)
                requires ip == mv * pw, mv >= 1, pw >= 1, pow10(0) == 1,
            ;
        }
        return double_scaled_floor(ip, f, k);
    }
    if p > 0 {
        let pu = p as usize;
        let ghost hi = dz.take(pu as int);
        let ghost lo = dz.skip(pu as int);
        assert(d@.subrange(z as int, (z + pu) as int) =~= hi);
        let ip = small_value(d, z, z + pu);
        let f = crate::text::slice_of(d, z + pu, d.len());
        assert(f@ =~= lo);
        proof {
            assert(dz =~= hi + lo);
            lemma_digits_concat(hi, lo);
            lemma_pow10_mono(pu as nat, 20);
            assert(all_digits(lo)) by {
                assert forall|i: int| 0 <= i < lo.len() implies is_digit(#[trigger] lo[i]) by {
                    assert(lo[i] == dz[pu + i]);
                }
            }
            assert(pos(e) == 0 && neg(e) == lo.len());
            assert(pow10(0) == 1);
            assert(ip == digits_value(hi));
            assert((ip as nat) * pow10(f@.len()) + digits_value(f@) == m);
            assert(pow10(pos(e)) == 1);
            assert(m * 1 == m);
            assert(pow10(f@.len()) == pow10(neg(e)));
        }
        return double_scaled_floor(ip, f, k);
    }
    // the point lies before the digits: zeros, then the digits
    let nz = (-p) as usize;
    let mut f: Vec<char> = Vec::new();
    let mut j: usize = 0;
    while j < nz
        invariant
            j <= nz,
            f@.len() == j,
            forall|i: int| 0 <= i < j ==> f@[i] == '0',
        decreases nz - j,
    {
        f.push('0');
        j += 1;
    }
    let ghost zs = f@;
    let tail = crate::text::slice_of(d, z, d.len());
    assert(tail@ =~= dz);
    crate::text::extend(&mut f, &tail);
    proof {
        assert(f@ =~= zs + dz);
        lemma_digits_concat(zs, dz);
        lemma_zero_digits(zs);
        assert(all_digits(f@)) by {
            assert forall|i: int| 0 <= i < f@.len() implies is_digit(#[trigger] f@[i]) by {
                if i < zs.len() {
                    assert(f@[i] == zs[i]);
                } else {
                    assert(f@[i] == dz[i - zs.len()]);
                }
            }
        }
        assert(0 * pow10(dz.len()) == 0);
        assert(pos(e) == 0 && neg(e) == f@.len());
        assert(pow10(0) == 1);
        assert(0u128 * pow10(f@.len()) == 0);
        assert(digits_value(f@) == m);
        assert((0u128 as nat) * pow10(f@.len()) + digits_value(f@) == m);
        assert(pow10(pos(e)) == 1);
        assert(m * 1 == m);
        assert(pow10(f@.len()) == pow10(neg(e)));
    }
    double_scaled_floor(0, f, k)
}

/// `(value * 10^k) as u64` for a text that `f64::from_str` accepts, with the
/// value read as the nearest double and the product rounded as doubles round.
pub fn scaled_value(tok: &Vec<char>, k: u64) -> (r: u64)
    requires
        float_text(tok@),
        k <= 12,
    ensures
        r == scaled_u64(tok@, k as nat),
{
    let l = layout_of(tok);
    if eq_ignore_case_exec(&l.body, "nan") {
        return 0;
    }
    if tok.len() > 0 && tok[0] == '-' {
        return 0;
    }
    if eq_ignore_case_exec(&l.body, "inf") || eq_ignore_case_exec(&l.body, "infinity") {
        return 0xFFFF_FFFF_FFFF_FFFF;
    }
    let ghost b = l.body@;
    assert(number_ok(b));
    let d = mantissa_vec(&l);
    let (eneg, eabs) = exponent_of(&l.body, l.mend);
    proof {
        let e = exp_text(b);
        if e.len() == 0 {
            assert(exp_value(b) == 0);
        }
    }
    scale_digits(&d, eneg, eabs, l.frac, k, Ghost(exp_value(b)))
}

} // verus!
