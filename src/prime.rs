use vstd::prelude::*;

verus! {

/// `n` is a prime number: at least 2, with no divisor strictly between 1 and `n`.
pub open spec fn is_prime(n: int) -> bool {
    n >= 2 && forall|d: int| 2 <= d < n ==> #[trigger] (n % d) != 0
}

/// Relies on `num_integer::Roots::sqrt` for `i64`: the truncated square root of a
/// non-negative integer (it panics on a negative one).
#[verifier::external_body]
fn isqrt_i64(n: i64) -> (r: i64)
    requires
        n >= 0,
    ensures
        r >= 0,
        r * r <= n,
        n < (r + 1) * (r + 1),
{
    num::integer::Roots::sqrt(&n)
}

/// Relies on `num_integer::Roots::sqrt` for `i32`: the truncated square root of a
/// non-negative integer (it panics on a negative one).
#[verifier::external_body]
fn isqrt_i32(n: i32) -> (r: i32)
    requires
        n >= 0,
    ensures
        r >= 0,
        r * r <= n,
        n < (r + 1) * (r + 1),
{
    num::integer::Roots::sqrt(&n)
}

/// An odd number has no even divisor; a number not divisible by 3 has no
/// divisor that is a multiple of 3.
proof fn lemma_no_divisor_through_factor(n: int, d: int, f: int)
    requires
        n >= 1,
        d >= 1,
        f >= 1,
        d % f == 0,
        n % f != 0,
    ensures
        n % d != 0,
{
    if n % d == 0 {
        let q = n / d;
        let e = d / f;
        assert(n == d * q) by (nonlinear_arith)
            requires n % d == 0, d >= 1, q == n / d;
        assert(d == f * e) by (nonlinear_arith)
            requires d % f == 0, f >= 1, e == d / f;
        assert(n == f * (e * q)) by (nonlinear_arith)
            requires n == d * q, d == f * e;
        assert((f * (e * q)) % f == 0) by (nonlinear_arith)
            requires f >= 1;
    }
}

/// A number with no divisor in `[2, r]`, where `r` is its truncated square root, is prime.
proof fn lemma_prime_by_root(n: int, r: int)
    requires
        n >= 2,
        r >= 0,
        n < (r + 1) * (r + 1),
        forall|d: int| 2 <= d <= r ==> #[trigger] (n % d) != 0,
    ensures
        is_prime(n),
{
    assert forall|d: int| 2 <= d < n implies #[trigger] (n % d) != 0 by {
        if n % d == 0 {
            let e = n / d;
            assert(n == d * e) by (nonlinear_arith)
                requires n % d == 0, d >= 2, e == n / d;
            assert(e >= 2) by (nonlinear_arith)
                requires n == d * e, d < n, d >= 2;
            assert(e * d == n && n % e == 0) by (nonlinear_arith)
                requires n == d * e, e >= 2;
            if d > r && e > r {
                assert(d * e >= (r + 1) * (r + 1)) by (nonlinear_arith)
                    requires d >= r + 1, e >= r + 1, r >= 0;
            } else if d <= r {
            } else {
                assert(n % e != 0);
            }
        }
    }
}

/// A type on which primality can be tested.
pub trait MaybePrime {
    /// The integer that the value stands for.
    spec fn int_value(&self) -> int;

    /// Whether the value is a prime number.
    fn is_prime(&self) -> (r: bool)
        ensures
            r == is_prime(self.int_value()),
    ;
}

impl MaybePrime for i64 {
    open spec fn int_value(&self) -> int {
        *self as int
    }

    fn is_prime(&self) -> (r: bool) {
        let n: i64 = *self;
        if n == 2 || n == 3 {
            assert(is_prime(n as int));
            return true;
        } else if n < 2 || n % 2 == 0 || n % 3 == 0 {
            if n >= 2 {
                assert((n as int) % 2 == 0 ==> !is_prime(n as int));
                assert((n as int) % 3 == 0 ==> !is_prime(n as int));
            }
            return false;
        }
        let root: i64 = isqrt_i64(n);
        assert(root <= 4_000_000_000) by (nonlinear_arith)
            requires root * root <= n, root >= 0, n <= i64::MAX;
        assert(root >= 2) by (nonlinear_arith)
            requires n < (root + 1) * (root + 1), root >= 0, n >= 5;
        let bound: i64 = root + 1;
        proof {
            lemma_no_divisor_through_factor(n as int, 4, 2);
            assert forall|d: int| 2 <= d < 5 implies #[trigger] ((n as int) % d) != 0 by {
                if d == 4 {
                    assert((n as int) % 4 != 0);
                }
            }
        }
        let mut i: i64 = 6;
        while i <= bound
            invariant
                n == *self,
                n >= 5,
                n % 2 != 0,
                n % 3 != 0,
                2 <= root <= 4_000_000_000,
                root * root <= n,
                n < (root + 1) * (root + 1),
                bound == root + 1,
                i % 6 == 0,
                6 <= i <= bound + 6,
                forall|d: int| 2 <= d < i - 1 ==> #[trigger] ((n as int) % d) != 0,
            decreases bound + 6 - i,
        {
            if n % (i - 1) == 0 || n % (i + 1) == 0 {
                let j: i64 = if n % (i - 1) == 0 { i - 1 } else { i + 1 };
                assert(root >= 5);
                assert(j + 1 < n) by (nonlinear_arith)
                    requires j <= root + 2, root * root <= n, 5 <= root;
                assert((n as int) % (j as int) == 0);
                assert(!is_prime(n as int));
                return false;
            }
            proof {
                lemma_no_divisor_through_factor(n as int, i as int, 6);
                lemma_no_divisor_through_factor(n as int, (i + 2) as int, 2);
                lemma_no_divisor_through_factor(n as int, (i + 3) as int, 3);
                lemma_no_divisor_through_factor(n as int, (i + 4) as int, 2);
                assert forall|d: int| 2 <= d < i + 5 implies #[trigger] ((n as int) % d) != 0 by {
                    if d == i - 1 {
                        assert((n as int) % ((i - 1) as int) != 0);
                    } else if d == i + 1 {
                        assert((n as int) % ((i + 1) as int) != 0);
                    }
                }
            }
            i = i + 6;
        }
        proof {
            assert forall|d: int| 2 <= d <= root implies #[trigger] ((n as int) % d) != 0 by {
                assert(d < i - 1);
            }
            lemma_prime_by_root(n as int, root as int);
        }
        true
    }
}

impl MaybePrime for i32 {
    open spec fn int_value(&self) -> int {
        *self as int
    }

    fn is_prime(&self) -> (r: bool) {
        let n: i32 = *self;
        if n == 2 || n == 3 {
            assert(is_prime(n as int));
            return true;
        } else if n < 2 || n % 2 == 0 || n % 3 == 0 {
            if n >= 2 {
                assert((n as int) % 2 == 0 ==> !is_prime(n as int));
                assert((n as int) % 3 == 0 ==> !is_prime(n as int));
            }
            return false;
        }
        let root: i32 = isqrt_i32(n);
        assert(root <= 50_000) by (nonlinear_arith)
            requires root * root <= n, root >= 0, n <= i32::MAX;
        assert(root >= 2) by (nonlinear_arith)
            requires n < (root + 1) * (root + 1), root >= 0, n >= 5;
        let bound: i32 = root + 1;
        proof {
            lemma_no_divisor_through_factor(n as int, 4, 2);
            assert forall|d: int| 2 <= d < 5 implies #[trigger] ((n as int) % d) != 0 by {
                if d == 4 {
                    assert((n as int) % 4 != 0);
                }
            }
        }
        let mut i: i32 = 6;
        while i <= bound
            invariant
                n == *self,
                n >= 5,
                n % 2 != 0,
                n % 3 != 0,
                2 <= root <= 50_000,
                root * root <= n,
                n < (root + 1) * (root + 1),
                bound == root + 1,
                i % 6 == 0,
                6 <= i <= bound + 6,
                forall|d: int| 2 <= d < i - 1 ==> #[trigger] ((n as int) % d) != 0,
            decreases bound + 6 - i,
        {
            if n % (i - 1) == 0 || n % (i + 1) == 0 {
                let j: i32 = if n % (i - 1) == 0 { i - 1 } else { i + 1 };
                assert(root >= 5);
                assert(j + 1 < n) by (nonlinear_arith)
                    requires j <= root + 2, root * root <= n, 5 <= root;
                assert((n as int) % (j as int) == 0);
                assert(!is_prime(n as int));
                return false;
            }
            proof {
                lemma_no_divisor_through_factor(n as int, i as int, 6);
                lemma_no_divisor_through_factor(n as int, (i + 2) as int, 2);
                lemma_no_divisor_through_factor(n as int, (i + 3) as int, 3);
                lemma_no_divisor_through_factor(n as int, (i + 4) as int, 2);
                assert forall|d: int| 2 <= d < i + 5 implies #[trigger] ((n as int) % d) != 0 by {
                    if d == i - 1 {
                        assert((n as int) % ((i - 1) as int) != 0);
                    } else if d == i + 1 {
                        assert((n as int) % ((i + 1) as int) != 0);
                    }
                }
            }
            i = i + 6;
        }
        proof {
            assert forall|d: int| 2 <= d <= root implies #[trigger] ((n as int) % d) != 0 by {
                assert(d < i - 1);
            }
            lemma_prime_by_root(n as int, root as int);
        }
        true
    }
}

/// An endless cursor over the prime numbers, in increasing order.
pub struct Primes<T> {
    base: T,
}

impl<T> Primes<T> {
    /// The next candidate to test.
    pub closed spec fn base(&self) -> T {
        self.base
    }

    /// A cursor whose first prime is the smallest one at or above `base`.
    pub fn new(base: T) -> (r: Self)
        ensures
            r.base() == base,
    {
        Self { base }
    }
}

/// `p` is the smallest prime at or above `max(2, base)`.
pub open spec fn is_next_prime(base: int, p: int) -> bool {
    &&& is_prime(p)
    &&& p >= base
    &&& forall|m: int| base <= m < p ==> !#[trigger] is_prime(m)
}

impl Primes<i64> {
    /// Returns the smallest prime at or above `max(2, base)` and moves the cursor just
    /// past it; `None` where no such prime fits in an `i64`.
    pub fn next(&mut self) -> (r: Option<i64>)
        ensures
            match r {
                Some(p) => is_next_prime(old(self).base() as int, p as int) && p < i64::MAX
                    && final(self).base() == p + 1,
                None => final(self).base() == old(self).base()
                    && forall|m: int| old(self).base() <= m <= i64::MAX ==> !#[trigger] is_prime(m),
            },
    {
        let n: i64 = self.base;
        let mut c: i64 = if n < 2 { 2 } else { n };
        loop
            invariant
                n == old(self).base(),
                *self == *old(self),
                n <= c,
                2 <= c,
                forall|m: int| n <= m < c ==> !#[trigger] is_prime(m),
            decreases i64::MAX - c,
        {
            if c.is_prime() {
                assert((i64::MAX as int) % 7 == 0);
                assert(c < i64::MAX);
                self.base = c + 1;
                return Some(c);
            }
            if c == i64::MAX {
                return None;
            }
            c = c + 1;
        }
    }
}

impl Primes<i32> {
    /// Returns the smallest prime at or above `max(2, base)` and moves the cursor just
    /// past it; `None` where no such prime lies below `i32::MAX`, so that the cursor
    /// could not move past it.
    pub fn next(&mut self) -> (r: Option<i32>)
        ensures
            match r {
                Some(p) => is_next_prime(old(self).base() as int, p as int) && p < i32::MAX
                    && final(self).base() == p + 1,
                None => final(self).base() == old(self).base()
                    && forall|m: int| old(self).base() <= m < i32::MAX ==> !#[trigger] is_prime(m),
            },
    {
        let n: i32 = self.base;
        let mut c: i32 = if n < 2 { 2 } else { n };
        loop
            invariant
                n == old(self).base(),
                *self == *old(self),
                n <= c,
                2 <= c,
                forall|m: int| n <= m < c ==> !#[trigger] is_prime(m),
            decreases i32::MAX - c,
        {
            if c == i32::MAX {
                return None;
            }
            if c.is_prime() {
                self.base = c + 1;
                return Some(c);
            }
            c = c + 1;
        }
    }
}

} // verus!
