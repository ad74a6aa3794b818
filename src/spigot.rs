use num::BigInt;
use vstd::prelude::*;

verus! {

#[verifier::external_type_specification]
#[verifier::external_body]
pub struct ExBigInt(num::BigInt);

/// The integer that a `BigInt` holds.
pub uninterp spec fn big_value(b: BigInt) -> int;

/// Relies on `num_bigint`'s `From<i64> for BigInt`: the same integer.
#[verifier::external_body]
fn big_from(x: i64) -> (r: BigInt)
    ensures
        big_value(r) == x,
{
    BigInt::from(x)
}

/// Relies on `num_bigint`'s `Add<&BigInt> for &BigInt`: the exact sum.
#[verifier::external_body]
fn big_add(a: &BigInt, b: &BigInt) -> (r: BigInt)
    ensures
        big_value(r) == big_value(*a) + big_value(*b),
{
    a + b
}

/// Relies on `num_bigint`'s `Sub<&BigInt> for &BigInt`: the exact difference.
#[verifier::external_body]
fn big_sub(a: &BigInt, b: &BigInt) -> (r: BigInt)
    ensures
        big_value(r) == big_value(*a) - big_value(*b),
{
    a - b
}

/// Relies on `num_bigint`'s `Mul<&BigInt> for &BigInt`: the exact product.
#[verifier::external_body]
fn big_mul(a: &BigInt, b: &BigInt) -> (r: BigInt)
    ensures
        big_value(r) == big_value(*a) * big_value(*b),
{
    a * b
}

/// Division of `a` by a positive `b`, rounded toward zero.
pub open spec fn trunc_div(a: int, b: int) -> int {
    if a >= 0 {
        a / b
    } else {
        -((-a) / b)
    }
}

/// Relies on `num_bigint`'s `Div<&BigInt> for &BigInt`: the quotient of
/// `div_rem`, which rounds toward zero (it panics on a zero divisor).
#[verifier::external_body]
fn big_div(a: &BigInt, b: &BigInt) -> (r: BigInt)
    requires
        big_value(*b) > 0,
    ensures
        big_value(r) == trunc_div(big_value(*a), big_value(*b)),
{
    a / b
}

/// Relies on `num_bigint`'s `PartialOrd for BigInt`: the order of the integers.
#[verifier::external_body]
fn big_lt(a: &BigInt, b: &BigInt) -> (r: bool)
    ensures
        r == (big_value(*a) < big_value(*b)),
{
    a < b
}

/// Relies on `num_traits::ToPrimitive::to_u8` for `BigInt`: `Some` exactly when
/// the integer lies in `0..=255`.
#[verifier::external_body]
fn big_to_u8(a: &BigInt) -> (r: Option<u8>)
    ensures
        match r {
            Some(x) => x as int == big_value(*a),
            None => big_value(*a) < 0 || big_value(*a) > 255,
        },
{
    num::ToPrimitive::to_u8(a)
}

/// The six integers of the spigot's state.
pub struct SpigotModel {
    pub q: int,
    pub r: int,
    pub t: int,
    pub k: int,
    pub n: int,
    pub l: int,
}

/// The state of a fresh spigot.
pub open spec fn initial_model() -> SpigotModel {
    SpigotModel { q: 1, r: 0, t: 1, k: 1, n: 3, l: 3 }
}

/// The candidate digit `n` is safe to emit.
pub open spec fn digit_is_safe(s: SpigotModel) -> bool {
    4 * s.q + s.r - s.t < s.n * s.t
}

/// The state after emitting the digit `s.n`.
pub open spec fn after_emit(s: SpigotModel) -> SpigotModel {
    SpigotModel {
        q: 10 * s.q,
        r: (s.r - s.n * s.t) * 10,
        n: trunc_div((3 * s.q + s.r) * 10, s.t) - 10 * s.n,
        ..s
    }
}

/// The state after one refinement step, which emits nothing.
pub open spec fn after_refine(s: SpigotModel) -> SpigotModel {
    SpigotModel {
        q: s.k * s.q,
        r: (2 * s.q + s.r) * s.l,
        t: s.t * s.l,
        k: s.k + 1,
        n: trunc_div(7 * s.k * s.q + 2 + s.r * s.l, s.t * s.l),
        l: s.l + 2,
    }
}

/// The digit `n` as a byte, where it fits in one.
pub open spec fn digit_of(n: int) -> Option<u8> {
    if 0 <= n <= 255 {
        Some(n as u8)
    } else {
        None
    }
}

/// The state and result of one pull with at most `fuel` refinement steps: the
/// state is refined until the candidate is safe, which is then emitted.
pub open spec fn pull(s: SpigotModel, fuel: nat) -> (SpigotModel, Option<u8>)
    decreases fuel,
{
    if digit_is_safe(s) {
        (after_emit(s), digit_of(s.n))
    } else if fuel == 0 {
        (s, None)
    } else {
        pull(after_refine(s), (fuel - 1) as nat)
    }
}

/// A fresh spigot's first pull emits 3, the integer part of pi, after one
/// refinement step.
pub proof fn lemma_spigot_starts_with_three()
    ensures
        pull(initial_model(), u64::MAX as nat).1 == Some(3u8),
{
    let s0 = initial_model();
    assert(!digit_is_safe(s0));
    let s1 = after_refine(s0);
    assert(s1 == SpigotModel { q: 1, r: 6, t: 3, k: 2, n: 3, l: 5 });
    assert(s1.n == 3 && s1.t == 3 && s1.q == 1 && s1.r == 6);
    assert(s1.n * s1.t == 9);
    assert(digit_is_safe(s1));
    assert(pull(s0, u64::MAX as nat) == pull(s1, (u64::MAX - 1) as nat));
}

/// Two spigots in the same state give the same digit and move to the same state,
/// so two fresh spigots give the same sequence of digits.
pub proof fn lemma_spigot_deterministic(a: SpigotModel, b: SpigotModel, fuel: nat)
    requires
        a == b,
    ensures
        pull(a, fuel) == pull(b, fuel),
{
}

/// The state after `i` pulls from `s`.
pub open spec fn pulls(s: SpigotModel, i: nat) -> SpigotModel
    decreases i,
{
    if i == 0 {
        s
    } else {
        pulls(pull(s, u64::MAX as nat).0, (i - 1) as nat)
    }
}

/// The digits of pi, skipping the point (`31415...`), produced in order by the
/// spigot algorithm on arbitrary-precision integers.
pub struct Spigot {
    q: BigInt,
    r: BigInt,
    t: BigInt,
    k: BigInt,
    n: BigInt,
    l: BigInt,
    first: bool,
}

impl Spigot {
    /// The integers of the state.
    pub closed spec fn model(&self) -> SpigotModel {
        SpigotModel {
            q: big_value(self.q),
            r: big_value(self.r),
            t: big_value(self.t),
            k: big_value(self.k),
            n: big_value(self.n),
            l: big_value(self.l),
        }
    }

    /// The divisors `t` and `l` stay positive.
    #[verifier::type_invariant]
    pub closed spec fn wf(&self) -> bool {
        big_value(self.t) >= 1 && big_value(self.l) >= 1
    }

    /// A spigot at the start of pi.
    pub fn new() -> (r: Self)
        ensures
            r.model() == initial_model(),
    {
        Self {
            q: big_from(1),
            r: big_from(0),
            t: big_from(1),
            k: big_from(1),
            n: big_from(3),
            l: big_from(3),
            first: true,
        }
    }

    /// Refines the state until the candidate digit is safe, emits it and rebases
    /// the state. The number of refinement steps in one call is bounded by
    /// `u64::MAX`; `None` where that bound is reached, or the digit does not fit
    /// in a byte.
    pub fn next(&mut self) -> (r: Option<u8>)
        ensures
            (final(self).model(), r) == pull(old(self).model(), u64::MAX as nat),
    {
        let mut fuel: u64 = u64::MAX;
        loop
            invariant
                pull(self.model(), fuel as nat) == pull(old(self).model(), u64::MAX as nat),
            decreases fuel,
        {
            let ghost pre: SpigotModel = self.model();
            proof {
                use_type_invariant(&*self);
            }
            let four: BigInt = big_from(4);
            let q4: BigInt = big_mul(&self.q, &four);
            let lhs0: BigInt = big_add(&q4, &self.r);
            let lhs: BigInt = big_sub(&lhs0, &self.t);
            let rhs: BigInt = big_mul(&self.n, &self.t);
            if big_lt(&lhs, &rhs) {
                if self.first {
                    self.first = false;
                }
                let digit: Option<u8> = big_to_u8(&self.n);
                let ten: BigInt = big_from(10);
                let three: BigInt = big_from(3);
                let nt: BigInt = big_mul(&self.n, &self.t);
                let diff: BigInt = big_sub(&self.r, &nt);
                let nr: BigInt = big_mul(&diff, &ten);
                let q3: BigInt = big_mul(&self.q, &three);
                let a0: BigInt = big_add(&q3, &self.r);
                let a1: BigInt = big_mul(&a0, &ten);
                let a2: BigInt = big_div(&a1, &self.t);
                let n10: BigInt = big_mul(&self.n, &ten);
                self.n = big_sub(&a2, &n10);
                self.q = big_mul(&self.q, &ten);
                self.r = nr;
                return digit;
            }
            if fuel == 0 {
                return None;
            }
            let two: BigInt = big_from(2);
            let seven: BigInt = big_from(7);
            let one: BigInt = big_from(1);
            let q2: BigInt = big_mul(&self.q, &two);
            let b0: BigInt = big_add(&q2, &self.r);
            let nr: BigInt = big_mul(&b0, &self.l);
            let qk: BigInt = big_mul(&self.q, &self.k);
            let qk7: BigInt = big_mul(&qk, &seven);
            let c0: BigInt = big_add(&qk7, &two);
            let rl: BigInt = big_mul(&self.r, &self.l);
            let c1: BigInt = big_add(&c0, &rl);
            let tl: BigInt = big_mul(&self.t, &self.l);
            proof {
                assert(big_value(tl) >= 1) by (nonlinear_arith)
                    requires big_value(tl) == big_value(self.t) * big_value(self.l),
                        big_value(self.t) >= 1, big_value(self.l) >= 1;
            }
            let nn: BigInt = big_div(&c1, &tl);
            self.q = qk;
            self.t = tl;
            self.l = big_add(&self.l, &two);
            self.k = big_add(&self.k, &one);
            self.n = nn;
            self.r = nr;
            proof {
                assert(big_value(c1) == 7 * pre.k * pre.q + 2 + pre.r * pre.l) by (nonlinear_arith)
                    requires
                        big_value(qk) == pre.q * pre.k,
                        big_value(qk7) == big_value(qk) * 7,
                        big_value(c0) == big_value(qk7) + 2,
                        big_value(rl) == pre.r * pre.l,
                        big_value(c1) == big_value(c0) + big_value(rl);
                assert(big_value(self.q) == pre.k * pre.q) by (nonlinear_arith)
                    requires big_value(self.q) == pre.q * pre.k;
                assert(big_value(self.r) == (2 * pre.q + pre.r) * pre.l) by (nonlinear_arith)
                    requires big_value(self.r) == (pre.q * 2 + pre.r) * pre.l;
                assert(self.model() == after_refine(pre));
                assert(big_value(self.l) >= 1);
            }
            fuel = fuel - 1;
        }
    }
}

impl Default for Spigot {
    /// A spigot at the start of pi, as `new`.
    fn default() -> (r: Self)
        ensures
            r.model() == initial_model(),
    {
        Spigot::new()
    }
}

impl crate::PiDigitGenerator for Spigot {
    open spec fn ahead(&self, i: nat) -> Option<u8> {
        pull(pulls(self.model(), i), u64::MAX as nat).1
    }

    fn next(&mut self) -> (r: Option<u8>) {
        let r = Spigot::next(self);
        assert forall|i: nat| #[trigger] pulls(self.model(), i) == pulls(old(self).model(), i + 1) by {
            assert((i + 1 - 1) as nat == i);
        }
        r
    }
}

} // verus!
