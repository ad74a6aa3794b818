use vstd::arithmetic::div_mod::{lemma_mod_multiples_vanish, lemma_mod_twice, lemma_mul_mod_noop_general};
use vstd::arithmetic::power::{pow, lemma_pow0, lemma_pow1, lemma_pow_adds, lemma_pow_positive};
use vstd::prelude::*;

verus! {

/// The remainder of `x` divided by a positive `m`, with the sign of `x` (the
/// quotient rounds toward zero).
pub open spec fn trunc_rem(x: int, m: int) -> int {
    if x >= 0 {
        x % m
    } else {
        -((-x) % m)
    }
}

/// `(a * b) mod m`, for operands whose product fits in an `i64`; the remainder
/// takes the sign of the product.
pub fn mul_mod(a: i64, b: i64, m: i64) -> (r: i64)
    requires
        0 < m,
        i64::MIN <= a * b <= i64::MAX,
    ensures
        r as int == trunc_rem(a * b, m as int),
        a * b >= 0 ==> 0 <= r < m,
{
    let p: i64 = a * b;
    if p >= 0 {
        p % m
    } else {
        let w: i128 = -(p as i128);
        let rem: i128 = w % (m as i128);
        (-rem) as i64
    }
}

/// Modular exponentiation by repeated squaring: `a^b mod m`.
pub fn pow_mod(a: i64, b: i64, m: i64) -> (r: i64)
    requires
        0 <= a,
        0 <= b,
        1 < m,
        m * m <= i64::MAX,
    ensures
        r as int == pow(a as int, b as nat) % (m as int),
        0 <= r < m,
    decreases b,
{
    proof {
        reveal(pow);
    }
    if b == 0 {
        proof {
            lemma_pow0(a as int);
            vstd::arithmetic::div_mod::lemma_small_mod(1, m as nat);
        }
        1
    } else if b == 1 {
        proof {
            lemma_pow1(a as int);
        }
        a % m
    } else {
        let h: i64 = b / 2;
        let temp: i64 = pow_mod(a, h, m);
        assert(temp * temp <= i64::MAX) by (nonlinear_arith)
            requires 0 <= temp < m, m * m <= i64::MAX;
        let sq: i64 = (temp * temp) % m;
        proof {
            lemma_pow_adds(a as int, h as nat, h as nat);
            lemma_mul_mod_noop_general(pow(a as int, h as nat), pow(a as int, h as nat), m as int);
            assert(sq == pow(a as int, (2 * h) as nat) % (m as int));
        }
        if b % 2 == 0 {
            assert(b == 2 * h);
            sq
        } else {
            let am: i64 = a % m;
            assert(sq * am <= i64::MAX) by (nonlinear_arith)
                requires 0 <= sq < m, 0 <= am < m, m * m <= i64::MAX;
            let r: i64 = (sq * am) % m;
            proof {
                lemma_pow_adds(a as int, (2 * h) as nat, 1);
                lemma_pow1(a as int);
                lemma_mul_mod_noop_general(pow(a as int, (2 * h) as nat), a as int, m as int);
                lemma_mod_twice(pow(a as int, (2 * h) as nat), m as int);
                assert(b == 2 * h + 1);
            }
            r
        }
    }
}

/// `a` and `n` have no common divisor above 1.
pub open spec fn coprime(a: int, n: int) -> bool {
    forall|g: int| g > 1 ==> !(#[trigger] (a % g) == 0 && n % g == 0)
}

/// `x` lies in `[0, n)` and `a * x` is 1 modulo `n`.
pub open spec fn is_inverse_mod(a: int, x: int, n: int) -> bool {
    0 <= x < n && (a * x) % n == 1
}

proof fn lemma_euclid_step(a: int, i: int, t: int, g: int)
    requires
        a > 0,
        i >= 0,
        g > 0,
        t == i / a,
        (i % a) % g == 0,
        a % g == 0,
    ensures
        i % g == 0,
{
    let x = a / g;
    let y = (i % a) / g;
    assert(a == g * x) by (nonlinear_arith)
        requires a % g == 0, g > 0, x == a / g;
    assert(i % a == g * y) by (nonlinear_arith)
        requires (i % a) % g == 0, g > 0, y == (i % a) / g;
    assert(i == t * a + i % a) by (nonlinear_arith)
        requires a > 0, t == i / a;
    assert(i == g * (t * x + y)) by (nonlinear_arith)
        requires i == t * a + i % a, a == g * x, i % a == g * y;
    assert((g * (t * x + y)) % g == 0) by (nonlinear_arith)
        requires g > 0;
}

/// The coefficient of the starting `a` that the extended Euclidean algorithm
/// reaches from the pair `(a, i)` with coefficients `v` (of `i`) and `d` (of `a`).
pub open spec fn euclid_coeff(a: int, i: int, v: int, d: int) -> int
    decreases a,
{
    if a > 0 {
        euclid_coeff(i % a, a, d, v - (i / a) * d)
    } else {
        v
    }
}

/// `v` brought into `[0, n)`, for `-n <= v <= n`.
pub open spec fn normalize_mod(v: int, n: int) -> int {
    let r = if v < 0 { v + n } else { v };
    if r >= n { r - n } else { r }
}

/// What `mod_inverse(a, n)` returns.
pub open spec fn inverse_spec(a: int, n: int) -> int {
    normalize_mod(euclid_coeff(a, n, 0, 1), n)
}

/// The multiplicative inverse of `a` modulo `n`, by the extended Euclidean
/// algorithm, in `[0, n)`. Where `a` and `n` are not coprime no inverse exists,
/// and the result is only known to lie in `[0, n)`.
pub fn mod_inverse(a: i64, n: i64) -> (r: i64)
    requires
        0 <= a,
        1 < n <= i64::MAX / 4,
    ensures
        0 <= r < n,
        r == inverse_spec(a as int, n as int),
        coprime(a as int, n as int) ==> is_inverse_mod(a as int, r as int, n as int),
{
    let ghost a0: int = a as int;
    let ghost ki: int = 1;
    let ghost ka: int = 0;
    let mut a: i64 = a;
    let mut i: i64 = n;
    let mut v: i64 = 0;
    let mut d: i64 = 1;
    assert(0 * a + 1 * n <= n) by (nonlinear_arith)
        requires n > 1, a >= 0;
    while a > 0
        invariant
            1 < n <= i64::MAX / 4,
            0 <= a,
            0 < i,
            i == v * a0 + ki * n,
            a == d * a0 + ka * n,
            euclid_coeff(a as int, i as int, v as int, d as int) == euclid_coeff(a0, n as int, 0, 1),
            abs_int(v as int) <= n,
            abs_int(v as int) * a + abs_int(d as int) * i <= n,
            forall|g: int| g > 0 && #[trigger] ((a as int) % g) == 0 && (i as int) % g == 0
                ==> a0 % g == 0 && (n as int) % g == 0,
        decreases a,
    {
        let t: i64 = i / a;
        let x: i64 = a;
        proof {
            assert(t * a <= i) by (nonlinear_arith)
                requires a > 0, i > 0, t == i / a;
            assert(t >= 0) by (nonlinear_arith)
                requires a > 0, i > 0, t == i / a;
            assert(abs_int(d as int) * t <= n) by (nonlinear_arith)
                requires abs_int(v as int) * a + abs_int(d as int) * i <= n, t * a <= i, a >= 1, t >= 0;
            assert(-n <= t * d <= n) by (nonlinear_arith)
                requires abs_int(d as int) * t <= n, t >= 0;
        }
        let na: i64 = i % a;
        let nd: i64 = v - t * d;
        proof {
            let nv = d as int;
            assert(abs_int(nd as int) <= abs_int(v as int) + t * abs_int(d as int)) by (nonlinear_arith)
                requires nd == v - t * d, t >= 0;
            assert(na == i - t * a) by (nonlinear_arith)
                requires a > 0, t == i / a, na == i % a;
            assert(abs_int(nv) * na + abs_int(nd as int) * a <= n) by (nonlinear_arith)
                requires
                    abs_int(v as int) * a + abs_int(d as int) * i <= n,
                    na == i - t * a,
                    nv == d,
                    abs_int(nd as int) <= abs_int(v as int) + t * abs_int(d as int),
                    t >= 0, a > 0, na >= 0;
            assert(abs_int(nv) <= n) by (nonlinear_arith)
                requires abs_int(v as int) * a + abs_int(d as int) * i <= n, i >= 1, a >= 0, nv == d;
            assert(na == nd * a0 + (ki - t * ka) * n) by (nonlinear_arith)
                requires
                    i == v * a0 + ki * n,
                    a == d * a0 + ka * n,
                    na == i - t * a,
                    nd == v - t * d;
            assert forall|g: int| g > 0 && #[trigger] ((na as int) % g) == 0 && (a as int) % g == 0
                implies a0 % g == 0 && (n as int) % g == 0 by {
                lemma_euclid_step(a as int, i as int, t as int, g);
            }
            let nka = ki - t * ka;
            ki = ka;
            ka = nka;
        }
        i = x;
        a = na;
        v = d;
        d = nd;
    }
    let mut r: i64 = v;
    let ghost c: int = 0;
    if r < 0 {
        r = r + n;
        proof { c = 1; }
    }
    if r >= n {
        r = r - n;
        proof { c = c - 1; }
    }
    proof {
        assert(r == v + c * n);
        if coprime(a0, n as int) {
            assert((i as int) % (i as int) == 0);
            assert((0int) % (i as int) == 0);
            assert(i == 1);
            assert(a0 * r == (n as int) * (a0 * c - ki) + 1) by (nonlinear_arith)
                requires r == v + c * n, 1 == v * a0 + ki * n;
            lemma_mod_multiples_vanish(a0 * c - ki, 1, n as int);
            vstd::arithmetic::div_mod::lemma_small_mod(1, n as nat);
            assert(is_inverse_mod(a0, r as int, n as int));
        }
    }
    r
}

/// The absolute value of `x`.
pub open spec fn abs_int(x: int) -> int {
    if x < 0 { -x } else { x }
}

} // verus!
