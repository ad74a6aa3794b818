use crate::digits::{padded_digits, split_block};
use crate::modular::{inverse_spec, mod_inverse, mul_mod, pow_mod};
use crate::prime::is_prime;
use crate::prime::Primes;
use vstd::arithmetic::power::{pow, lemma_pow1, lemma_pow_adds, lemma_pow_positive};
use vstd::prelude::*;

verus! {

/// The largest position that the extraction engine accepts. It keeps
/// `2 * working_bits(n)` below `3 * 10^9`, so that every modulus, and every factor
/// of the series, stays below `3 * 10^9` and every product of a residue with
/// another residue or with an index fits in an `i64`; the exact limit of that
/// condition lies near 457 million.
pub const MAX_POSITION: i32 = 400_000_000;

/// `log2(10)`, scaled by `10^18` and truncated.
pub const LOG2_10_SCALED: i128 = 3_321_928_094_887_362_347;

/// The scale of the fixed-point fraction in which the per-prime terms are summed.
pub const FRACTION_SCALE: i128 = 1_000_000_000_000_000_000;

/// The working precision in bits for position `n`: `floor((n + 20) * log2(10))`.
pub open spec fn working_bits(n: int) -> int {
    (n + 20) * (LOG2_10_SCALED as int) / (FRACTION_SCALE as int)
}

/// Computes `working_bits(n)`.
pub fn big_n_of(n: i32) -> (r: i64)
    requires
        0 <= n <= MAX_POSITION,
    ensures
        r == working_bits(n as int),
        66 <= r <= 1_500_000_000,
{
    let p: i128 = (n as i128 + 20) * LOG2_10_SCALED;
    assert(p / FRACTION_SCALE <= 1_500_000_000);
    (p / FRACTION_SCALE) as i64
}

/// The largest `v` with `a^v <= limit`, and `a^v`, searched upward from `(v, av)`.
pub open spec fn max_power_from(a: int, limit: int, v: int, av: int) -> (int, int)
    decreases limit - av via max_power_from_decreases
{
    if a >= 2 && av >= 1 && av * a <= limit {
        max_power_from(a, limit, v + 1, av * a)
    } else {
        (v, av)
    }
}

#[via_fn]
proof fn max_power_from_decreases(a: int, limit: int, v: int, av: int) {
    if a >= 2 && av >= 1 && av * a <= limit {
        assert(av * a > av) by (nonlinear_arith)
            requires a >= 2, av >= 1;
    }
}

/// Returns the largest `v` with `a^v <= limit`, and `a^v`.
pub fn max_power(a: i64, limit: i64) -> (r: (i64, i64))
    requires
        2 <= a <= limit,
        limit <= 3_000_000_000,
    ensures
        r.0 >= 1,
        r.1 == pow(a as int, r.0 as nat),
        a <= r.1 <= limit,
        r.1 * a > limit,
        (r.0 as int, r.1 as int) == max_power_from(a as int, limit as int, 1, a as int),
{
    let mut v: i64 = 1;
    let mut av: i64 = a;
    proof {
        lemma_pow1(a as int);
    }
    while av <= limit / a
        invariant
            2 <= a <= limit <= 3_000_000_000,
            1 <= v <= av,
            av == pow(a as int, v as nat),
            a <= av <= limit,
            max_power_from(a as int, limit as int, v as int, av as int)
                == max_power_from(a as int, limit as int, 1, a as int),
        decreases limit - av,
    {
        proof {
            reveal(pow);
            assert(av * a <= limit) by (nonlinear_arith)
                requires av <= limit / a, a >= 2;
            assert(av * a > av) by (nonlinear_arith)
                requires av >= 2, a >= 2;
            assert(pow(a as int, (v + 1) as nat) == a * pow(a as int, v as nat));
        }
        av = av * a;
        v = v + 1;
    }
    assert(av * a > limit) by (nonlinear_arith)
        requires av > limit / a, a >= 2, av >= 1;
    (v, av)
}

/// `t` with every factor `a` divided out, and how many factors were removed.
pub open spec fn strip_factor(t: int, a: int) -> (int, int)
    decreases t via strip_factor_decreases
{
    if t > 0 && a >= 2 && t % a == 0 {
        let inner = strip_factor(t / a, a);
        (inner.0, inner.1 + 1)
    } else {
        (t, 0)
    }
}

#[via_fn]
proof fn strip_factor_decreases(t: int, a: int) {
    if t > 0 && a >= 2 && t % a == 0 {
        assert(t / a < t) by (nonlinear_arith)
            requires t > 0, a >= 2;
    }
}

/// `term` multiplied `c` times by `a`, reduced modulo `av` after each product.
pub open spec fn mul_repeat(term: int, a: int, av: int, c: nat) -> int
    decreases c,
{
    if c == 0 {
        term
    } else {
        mul_repeat((term * a) % av, a, av, (c - 1) as nat)
    }
}

/// The running state of `prime_term`: the sum `s`, the numerator and denominator
/// residues, the net power `v` of `a` divided out, and the counters of `k` and
/// `2k - 1` modulo `a`.
pub struct TermState {
    pub s: int,
    pub num: int,
    pub den: int,
    pub v: int,
    pub kq: int,
    pub kq2: int,
}

/// The state of `prime_term` after the term `k`.
pub open spec fn term_step(a: int, vmax: int, av: int, k: int, st: TermState) -> TermState {
    let first = strip_factor(k / a, a);
    let t1 = if st.kq >= a { first.0 } else { k };
    let v1 = if st.kq >= a { st.v - 1 - first.1 } else { st.v };
    let kq = if st.kq >= a { 1 } else { st.kq + 1 };
    let num = (st.num * t1) % av;
    let second = strip_factor((2 * k - 1) / a, a);
    let t2 = if st.kq2 == a { second.0 } else { 2 * k - 1 };
    let v2 = if st.kq2 == a { v1 + 1 + second.1 } else { v1 };
    let kq2 = if st.kq2 >= a { st.kq2 - a + 2 } else { st.kq2 + 2 };
    let den = (st.den * t2) % av;
    let count: nat = if v2 < vmax { (vmax - v2) as nat } else { 0 };
    let term = mul_repeat((((inverse_spec(den, av) * num) % av) * k) % av, a, av, count);
    let sum = if v2 > 0 {
        if st.s + term >= av { st.s + term - av } else { st.s + term }
    } else {
        st.s
    };
    TermState { s: sum, num, den, v: v2, kq, kq2 }
}

/// The state of `prime_term` after the terms `k ..= big_n`, from `st`.
pub open spec fn term_run(a: int, vmax: int, av: int, big_n: int, k: int, st: TermState) -> TermState
    decreases big_n + 1 - k,
{
    if k > big_n || k < 1 {
        st
    } else {
        term_run(a, vmax, av, big_n, k + 1, term_step(a, vmax, av, k, st))
    }
}

/// What `prime_term(a, vmax, av, big_n)` returns.
pub open spec fn prime_term_spec(a: int, vmax: int, av: int, big_n: int) -> int {
    term_run(a, vmax, av, big_n, 1, TermState { s: 0, num: 1, den: 1, v: 0, kq: 1, kq2: 1 }).s
}

/// The contribution of the prime `a` to the extraction sum, as a residue modulo
/// `av == a^vmax`: the terms `k = 1 ..= big_n` of the series, with the factors of
/// `a` removed from numerator and denominator and only the terms in which `a`
/// divides the denominator more often than the numerator counted.
pub fn prime_term(a: i64, vmax: i64, av: i64, big_n: i64) -> (s: i64)
    requires
        3 <= a <= av <= 2 * big_n,
        1 <= vmax,
        av == pow(a as int, vmax as nat),
        1 <= big_n <= 1_500_000_000,
    ensures
        0 <= s < av,
        s == prime_term_spec(a as int, vmax as int, av as int, big_n as int),
{
    let mut s: i64 = 0;
    let mut num: i64 = 1;
    let mut den: i64 = 1;
    let mut v: i64 = 0;
    let mut kq: i64 = 1;
    let mut kq2: i64 = 1;
    let mut k: i64 = 1;
    assert(av * av <= i64::MAX) by (nonlinear_arith)
        requires av <= 3_000_000_000, av >= 0;
    while k <= big_n
        invariant
            3 <= a <= av <= 2 * big_n,
            av * av <= i64::MAX,
            1 <= vmax,
            1 <= big_n <= 1_500_000_000,
            1 <= k <= big_n + 1,
            0 <= s < av,
            0 <= num < av || num == 1,
            0 <= den < av || den == 1,
            1 <= kq <= a,
            1 <= kq2 <= a + 1,
            -3 * k * k <= v <= 3 * k * k,
            term_run(a as int, vmax as int, av as int, big_n as int, k as int,
                TermState { s: s as int, num: num as int, den: den as int, v: v as int, kq: kq as int, kq2: kq2 as int })
                == term_run(a as int, vmax as int, av as int, big_n as int, 1,
                TermState { s: 0, num: 1, den: 1, v: 0, kq: 1, kq2: 1 }),
        decreases big_n + 1 - k,
    {
        let ghost st: TermState = TermState { s: s as int, num: num as int, den: den as int, v: v as int, kq: kq as int, kq2: kq2 as int };
        let ghost first: (int, int) = strip_factor((k as int) / (a as int), a as int);
        let ghost second: (int, int) = strip_factor((2 * k - 1) as int / (a as int), a as int);
        let ghost v0: int = v as int;
        assert(-6_800_000_000_000_000_000 <= v0 <= 6_800_000_000_000_000_000) by (nonlinear_arith)
            requires -3 * k * k <= v0 <= 3 * k * k, 1 <= k <= 1_500_000_000;
        let mut t: i64 = k;
        if kq >= a {
            t = t / a;
            v = v - 1;
            while t > 0 && t % a == 0
                invariant
                    3 <= a,
                    1 <= k <= 1_500_000_000,
                    -6_800_000_000_000_000_000 <= v0 <= 6_800_000_000_000_000_000,
                    0 <= t <= k,
                    v0 - 1 - (k - t) <= v <= v0,
                    strip_factor(t as int, a as int).0 == first.0,
                    v - strip_factor(t as int, a as int).1 == v0 - 1 - first.1,
                decreases t,
            {
                assert(t / a <= t - 1) by (nonlinear_arith)
                    requires t > 0, t % a == 0, a >= 3;
                t = t / a;
                v = v - 1;
            }
            kq = 0;
        }
        kq = kq + 1;
        assert(num * t <= i64::MAX) by (nonlinear_arith)
            requires 0 <= num < av || num == 1, 0 <= t <= k, av <= 3_000_000_000, k <= 1_500_000_000;
        num = mul_mod(num, t, av);
        let ghost v1: int = v as int;
        assert(-7_000_000_000_000_000_000 <= v1 <= 7_000_000_000_000_000_000);
        t = 2 * k - 1;
        if kq2 >= a {
            if kq2 == a {
                t = t / a;
                v = v + 1;
                while t > 0 && t % a == 0
                    invariant
                        3 <= a,
                        1 <= k <= 1_500_000_000,
                        -7_000_000_000_000_000_000 <= v1 <= 7_000_000_000_000_000_000,
                        0 <= t <= 2 * k - 1,
                        v1 <= v <= v1 + 1 + (2 * k - t),
                        strip_factor(t as int, a as int).0 == second.0,
                        v + strip_factor(t as int, a as int).1 == v1 + 1 + second.1,
                    decreases t,
                {
                    assert(t / a <= t - 1) by (nonlinear_arith)
                        requires t > 0, t % a == 0, a >= 3;
                    t = t / a;
                    v = v + 1;
                }
            }
            kq2 = kq2 - a;
        }
        assert(0 <= t <= 2 * k - 1);
        assert(den * t <= i64::MAX) by (nonlinear_arith)
            requires 0 <= den < av || den == 1, 0 <= t <= 2 * k - 1, av <= 3_000_000_000, k <= 1_500_000_000;
        den = mul_mod(den, t, av);
        kq2 = kq2 + 2;
        if v > 0 {
            let inv: i64 = mod_inverse(den, av);
            assert(inv * num <= i64::MAX) by (nonlinear_arith)
                requires 0 <= inv < av, 0 <= num < av || num == 1, av * av <= i64::MAX;
            let mut term: i64 = mul_mod(inv, num, av);
            assert(term * k <= i64::MAX) by (nonlinear_arith)
                requires 0 <= term < av, av <= 2 * big_n, k <= big_n, big_n <= 1_500_000_000;
            term = mul_mod(term, k, av);
            let ghost target: int = mul_repeat(term as int, a as int, av as int,
                if v < vmax { (vmax - v) as nat } else { 0 });
            let mut j: i64 = v;
            while j < vmax
                invariant
                    3 <= a <= av,
                    av * av <= i64::MAX,
                    0 <= term < av,
                    mul_repeat(term as int, a as int, av as int,
                        if j < vmax { (vmax - j) as nat } else { 0 }) == target,
                decreases vmax - j,
            {
                assert(term * a <= i64::MAX) by (nonlinear_arith)
                    requires 0 <= term < av, 0 <= a <= av, av * av <= i64::MAX;
                term = mul_mod(term, a, av);
                j = j + 1;
            }
            s = s + term;
            if s >= av {
                s = s - av;
            }
        }
        assert(-3 * (k + 1) * (k + 1) <= v <= 3 * (k + 1) * (k + 1)) by (nonlinear_arith)
            requires
                -3 * k * k <= v0 <= 3 * k * k,
                v0 - 1 - k <= v1 <= v0,
                v1 <= v <= v1 + 1 + 2 * k,
                1 <= k <= big_n;
        assert(TermState { s: s as int, num: num as int, den: den as int, v: v as int, kq: kq as int, kq2: kq2 as int }
            == term_step(a as int, vmax as int, av as int, k as int, st));
        k = k + 1;
    }
    s
}

/// The largest prime that the extraction sum takes in: `2^53 - 1`, the integers
/// that a double-precision significand holds exactly.
pub const MANTISSA_MAX: i64 = 9_007_199_254_740_991;

/// Adds the residue `s` modulo `av`, read as the fraction `s / av` and truncated to
/// the fixed-point scale, to the fraction `frac`, and keeps the result in `[0, 1)`.
pub open spec fn add_fraction(frac: int, s: int, av: int) -> int {
    (frac + s * (FRACTION_SCALE as int) / av) % (FRACTION_SCALE as int)
}

/// Computes `add_fraction(frac, s, av)`.
pub fn accumulate(frac: i128, s: i64, av: i64) -> (r: i128)
    requires
        0 <= frac < FRACTION_SCALE,
        0 <= s < av,
    ensures
        r == add_fraction(frac as int, s as int, av as int),
        0 <= r < FRACTION_SCALE,
{
    assert((s as int) * (FRACTION_SCALE as int) / (av as int) < FRACTION_SCALE as int) by (nonlinear_arith)
        requires 0 <= s < av;
    assert((s as int) * (FRACTION_SCALE as int) <= 9_223_372_036_854_775_807 * (FRACTION_SCALE as int)) by (nonlinear_arith)
        requires 0 <= s <= 9_223_372_036_854_775_807;
    let term: i128 = (s as i128) * FRACTION_SCALE / (av as i128);
    (frac + term) % FRACTION_SCALE
}

proof fn lemma_pow10_18()
    ensures
        pow(10, 18) == 1_000_000_000_000_000_000,
{
    reveal_with_fuel(pow, 19);
}

/// The first `exp` decimal digits of the fixed-point fraction `frac`, as one integer.
pub open spec fn leading_digits_spec(frac: int, exp: nat) -> int {
    frac / pow(10, (18 - exp) as nat)
}

/// Computes `leading_digits_spec(frac, exp)`, which is below `10^exp`.
pub fn leading_digits(frac: i128, exp: u32) -> (r: i64)
    requires
        0 <= frac < FRACTION_SCALE,
        exp <= 18,
    ensures
        r == leading_digits_spec(frac as int, exp as nat),
        0 <= r < pow(10, exp as nat),
{
    let mut divisor: i128 = 1;
    let mut i: u32 = exp;
    proof {
        reveal(pow);
    }
    while i < 18
        invariant
            exp <= i <= 18,
            divisor == pow(10, (i - exp) as nat),
            1 <= divisor <= pow(10, (i - exp) as nat),
        decreases 18 - i,
    {
        proof {
            reveal(pow);
            assert(pow(10, (i + 1 - exp) as nat) == 10 * pow(10, (i - exp) as nat));
            lemma_pow_adds(10, (i + 1 - exp) as nat, (17 - i) as nat);
            lemma_pow_adds(10, (18 - exp) as nat, exp as nat);
            lemma_pow_positive(10, (17 - i) as nat);
            lemma_pow_positive(10, exp as nat);
            lemma_pow10_18();
            let tail_pow = pow(10, (17 - i) as nat);
            let exp_pow = pow(10, exp as nat);
            assert(divisor * 10 <= 1_000_000_000_000_000_000) by (nonlinear_arith)
                requires (divisor * 10) * tail_pow * exp_pow == 1_000_000_000_000_000_000, tail_pow >= 1, exp_pow >= 1,
                    divisor >= 1;
        }
        divisor = divisor * 10;
        i = i + 1;
    }
    proof {
        lemma_pow_adds(10, (18 - exp) as nat, exp as nat);
        lemma_pow10_18();
        assert(frac / divisor < pow(10, exp as nat)) by (nonlinear_arith)
            requires divisor * pow(10, exp as nat) == 1_000_000_000_000_000_000, 0 <= frac < 1_000_000_000_000_000_000, divisor >= 1;
    }
    (frac / divisor) as i64
}

/// The fixed-point sum over the candidates `c, c + 1, ..., limit` below
/// `MANTISSA_MAX`, from `frac`: each prime `a` among them adds
/// `prime_term_spec` scaled by `10^(n - 1)`, modulo `a^vmax`, by `add_fraction`.
pub open spec fn frac_from(c: int, limit: int, n: int, big_n: int, frac: int) -> int
    decreases limit + 1 - c,
{
    if c > limit || c >= MANTISSA_MAX {
        frac
    } else if is_prime(c) {
        let pw = max_power_from(c, limit, 1, c);
        let s = prime_term_spec(c, pw.0, pw.1, big_n);
        let scaled = (s * pow(10, (n - 1) as nat)) % pw.1;
        frac_from(c + 1, limit, n, big_n, add_fraction(frac, scaled, pw.1))
    } else {
        frac_from(c + 1, limit, n, big_n, frac)
    }
}

/// The fixed-point fractional sum of the extraction formula at position `n`.
pub open spec fn extraction_frac(n: int) -> int {
    frac_from(3, 2 * working_bits(n), n, working_bits(n), 0)
}

/// The `exp` digits that the extraction formula gives at position `n`, as one integer.
pub open spec fn extraction_digits(n: int, exp: nat) -> int {
    leading_digits_spec(extraction_frac(n), exp)
}

proof fn lemma_skip_composites(c: int, p: int, limit: int, n: int, big_n: int, frac: int)
    requires
        c <= p,
        forall|m: int| c <= m < p ==> !#[trigger] is_prime(m),
    ensures
        frac_from(c, limit, n, big_n, frac) == frac_from(p, limit, n, big_n, frac),
    decreases p - c,
{
    if c < p {
        lemma_skip_composites(c + 1, p, limit, n, big_n, frac);
        assert(!is_prime(c));
    }
}

/// The decimal digits of `n` starting at position `n` (1 is the first digit after
/// the point), read as one integer of `exp` digits, without computing the digits
/// before them: for each prime `a` with `3 <= a <= 2 * working_bits(n)` it adds
/// `prime_term` scaled by `10^(n - 1)`, as a fraction of `a^vmax`, to a fixed-point
/// sum kept in `[0, 1)`, and keeps the first `exp` digits of the sum.
pub fn get_next_n_dec_digits(n: i32, exp: u32) -> (r: i64)
    requires
        1 <= n <= MAX_POSITION,
        exp <= 18,
    ensures
        0 <= r < pow(10, exp as nat),
        r == extraction_digits(n as int, exp as nat),
{
    let big_n: i64 = big_n_of(n);
    let limit: i64 = 2 * big_n;
    let mut frac: i128 = 0;
    let mut primes: Primes<i64> = Primes::new(3);
    loop
        invariant
            66 <= big_n <= 1_500_000_000,
            limit == 2 * big_n,
            1 <= n <= MAX_POSITION,
            0 <= frac < FRACTION_SCALE,
            primes.base() >= 3,
            frac_from(primes.base() as int, limit as int, n as int, big_n as int, frac as int)
                == extraction_frac(n as int),
        ensures
            frac as int == extraction_frac(n as int),
        decreases i64::MAX - primes.base(),
    {
        let ghost base: int = primes.base() as int;
        let next: Option<i64> = primes.next();
        let a: i64 = match next {
            Some(a) => a,
            None => {
                proof {
                    if base <= limit + 1 {
                        lemma_skip_composites(base, limit + 1, limit as int, n as int, big_n as int, frac as int);
                    }
                    assert(frac_from(limit + 1, limit as int, n as int, big_n as int, frac as int) == frac);
                }
                break;
            },
        };
        proof {
            lemma_skip_composites(base, a as int, limit as int, n as int, big_n as int, frac as int);
        }
        if a > limit || a >= MANTISSA_MAX {
            break;
        }
        let (vmax, av) = max_power(a, limit);
        let s: i64 = prime_term(a, vmax, av, big_n);
        assert(av * av <= i64::MAX) by (nonlinear_arith)
            requires 0 <= av <= 3_000_000_000;
        let scale: i64 = pow_mod(10, (n as i64) - 1, av);
        assert(s * scale <= i64::MAX) by (nonlinear_arith)
            requires 0 <= s < av, 0 <= scale < av || scale <= 10, av <= 3_000_000_000;
        let s2: i64 = mul_mod(s, scale, av);
        proof {
            vstd::arithmetic::div_mod::lemma_mul_mod_noop_right(s as int, pow(10, (n - 1) as nat), av as int);
        }
        frac = accumulate(frac, s2, av);
    }
    leading_digits(frac, exp)
}

/// The block of `exp` digits that the extraction formula gives at position `n`,
/// zero-padded, most significant first.
pub open spec fn block_digits(n: int, exp: nat) -> Seq<u8> {
    padded_digits(extraction_digits(n, exp) as nat, exp)
}

proof fn lemma_frac_from_nonneg(c: int, limit: int, n: int, big_n: int, frac: int)
    requires
        frac >= 0,
    ensures
        frac_from(c, limit, n, big_n, frac) >= 0,
    decreases limit + 1 - c,
{
    if c > limit || c >= MANTISSA_MAX {
    } else if is_prime(c) {
        let pw = max_power_from(c, limit, 1, c);
        let scaled = (prime_term_spec(c, pw.0, pw.1, big_n) * pow(10, (n - 1) as nat)) % pw.1;
        lemma_frac_from_nonneg(c + 1, limit, n, big_n, add_fraction(frac, scaled, pw.1));
    } else {
        lemma_frac_from_nonneg(c + 1, limit, n, big_n, frac);
    }
}

/// The leading digit at a position does not depend on the block width: it is the
/// block of any width `exp` cut down to its first digit.
pub proof fn lemma_leading_digit_any_width(n: int, exp: nat)
    requires
        1 <= exp <= 18,
    ensures
        extraction_digits(n, 1) == extraction_digits(n, exp) / pow(10, (exp - 1) as nat),
{
    lemma_frac_from_nonneg(3, 2 * working_bits(n), n, working_bits(n), 0);
    lemma_pow_positive(10, (18 - exp) as nat);
    lemma_pow_positive(10, (exp - 1) as nat);
    lemma_pow_adds(10, (18 - exp) as nat, (exp - 1) as nat);
    vstd::arithmetic::div_mod::lemma_div_denominator(extraction_frac(n), pow(10, (18 - exp) as nat),
        pow(10, (exp - 1) as nat));
    assert((18 - exp) + (exp - 1) == 17);
}

/// The digits of pi, skipping the point (`31415...`), computed block by block with
/// the extraction formula: each block of `BUF` digits is computed on its own at the
/// engine's position, its first digit is returned and the rest are queued.
pub struct BbpBellard<const BUF: u32> {
    n: i32,
    buffer: Vec<u8>,
    pos: usize,
}

impl<const BUF: u32> BbpBellard<BUF> {
    /// The position at which the next block is computed.
    pub closed spec fn position(&self) -> int {
        self.n as int
    }

    /// The digits computed but not yet returned.
    pub closed spec fn pending(&self) -> Seq<u8> {
        self.buffer@.subrange(self.pos as int, self.buffer@.len() as int)
    }

    /// The internal queue is consistent and the position is not negative.
    #[verifier::type_invariant]
    pub closed spec fn wf(&self) -> bool {
        self.pos <= self.buffer@.len() && self.n >= 1
    }

    /// An engine whose first digit is the one at `start_position`; position 0 is the
    /// integer part of pi, the digit 3.
    pub fn new(start_position: i32) -> (r: Self)
        requires
            start_position >= 0,
        ensures
            start_position == 0 ==> r.pending() == seq![3u8] && r.position() == 1,
            start_position > 0 ==> r.pending().len() == 0 && r.position() == start_position,
    {
        let mut buffer: Vec<u8> = Vec::new();
        let mut n: i32 = start_position;
        if start_position == 0 {
            buffer.push(3);
            n = 1;
        }
        let r = Self { n, buffer, pos: 0 };
        assert(r.pending() =~= r.buffer@);
        r
    }

    /// The digit of pi at position `n` (0 is the integer part, the digit 3).
    pub fn get_n_position(n: i32) -> (r: i32)
        requires
            0 <= n <= MAX_POSITION,
        ensures
            n == 0 ==> r == 3,
            n >= 1 ==> r == extraction_digits(n as int, 1),
            0 <= r <= 9,
    {
        if n == 0 {
            3
        } else {
            let d: i64 = get_next_n_dec_digits(n, 1);
            proof {
                lemma_pow1(10);
            }
            d as i32
        }
    }

    /// Returns the next digit. A queued digit is returned first; where none is
    /// queued, a block of `BUF` digits is computed at the current position, split
    /// into exactly `BUF` digits (with leading zeros), the first returned and the rest queued, and the position
    /// moves on by `BUF + 1`. `None` where no digit is queued and the position is
    /// past `MAX_POSITION`, or `BUF` is 0 or above 18.
    pub fn next(&mut self) -> (r: Option<u8>)
        ensures
            old(self).pending().len() > 0 ==> r == Some(old(self).pending()[0])
                && final(self).pending() == old(self).pending().drop_first()
                && final(self).position() == old(self).position(),
            old(self).pending().len() == 0 && (old(self).position() > MAX_POSITION || BUF == 0
                || BUF > 18) ==> r is None && final(self).pending() == old(self).pending()
                && final(self).position() == old(self).position(),
            old(self).pending().len() == 0 && old(self).position() <= MAX_POSITION && 1 <= BUF
                <= 18 ==> r == Some(block_digits(old(self).position(), BUF as nat)[0])
                && final(self).pending() == block_digits(old(self).position(), BUF as nat).drop_first()
                && final(self).position() == old(self).position() + BUF + 1,
    {
        proof {
            use_type_invariant(&*self);
        }
        if self.pos < self.buffer.len() {
            let d: u8 = self.buffer[self.pos];
            self.pos = self.pos + 1;
            assert(self.pending() =~= old(self).pending().drop_first());
            return Some(d);
        }
        if self.n > MAX_POSITION || BUF == 0 || BUF > 18 {
            return None;
        }
        let num: i64 = get_next_n_dec_digits(self.n, BUF);
        let digits: Vec<u8> = split_block(num as u64, BUF);
        let first: u8 = digits[0];
        let n: i32 = self.n + (BUF as i32) + 1;
        *self = BbpBellard { n, buffer: digits, pos: 1 };
        assert(self.pending() =~= padded_digits(num as nat, BUF as nat).drop_first());
        Some(first)
    }
}

/// What the `i`-th pull returns from an engine with the queue `pending` and the
/// position `pos`, with blocks of `buf` digits.
pub open spec fn bbp_ahead(pending: Seq<u8>, pos: int, buf: nat, i: nat) -> Option<u8>
    decreases i,
{
    if i < pending.len() {
        Some(pending[i as int])
    } else if pos > MAX_POSITION || buf == 0 || buf > 18 {
        None
    } else if i == pending.len() {
        Some(block_digits(pos, buf)[0])
    } else {
        bbp_ahead(block_digits(pos, buf).drop_first(), pos + buf + 1, buf, (i - pending.len() - 1) as nat)
    }
}

/// Two engines built with the same start position give the same digits, pull for
/// pull.
pub proof fn lemma_fresh_engines_agree<const BUF: u32>(e1: BbpBellard<BUF>, e2: BbpBellard<BUF>, start: int)
    requires
        start == 0 ==> e1.pending() == seq![3u8] && e1.position() == 1 && e2.pending() == seq![3u8]
            && e2.position() == 1,
        start > 0 ==> e1.pending().len() == 0 && e1.position() == start && e2.pending().len() == 0
            && e2.position() == start,
        start >= 0,
    ensures
        forall|i: nat| bbp_ahead(e1.pending(), e1.position(), BUF as nat, i)
            == #[trigger] bbp_ahead(e2.pending(), e2.position(), BUF as nat, i),
{
    assert(e1.pending() =~= e2.pending());
}

impl<const BUF: u32> Default for BbpBellard<BUF> {
    /// An engine at the start of pi, as `new(0)`.
    fn default() -> (r: Self)
        ensures
            r.pending() == seq![3u8],
            r.position() == 1,
    {
        BbpBellard::new(0)
    }
}

impl<const BUF: u32> crate::PiDigitGenerator for BbpBellard<BUF> {
    open spec fn ahead(&self, i: nat) -> Option<u8> {
        bbp_ahead(self.pending(), self.position(), BUF as nat, i)
    }

    fn next(&mut self) -> (r: Option<u8>) {
        let r = BbpBellard::next(self);
        proof {
            let p0 = old(self).pending();
            assert forall|i: nat| #[trigger] bbp_ahead(self.pending(), self.position(), BUF as nat, i)
                == bbp_ahead(p0, old(self).position(), BUF as nat, i + 1) by {
                if p0.len() > 0 {
                    if i + 1 < p0.len() {
                    } else if i + 1 > p0.len() {
                        assert((i + 1 - p0.len() - 1) as nat == (i - (p0.len() - 1) - 1) as nat);
                    }
                }
            }
        }
        r
    }
}

} // verus!
