//! A fraction as it is configured: a single-precision number, held by its bits.
//!
//! The bits are those of the IEEE 754 binary32 format: a sign, eight bits of exponent and
//! twenty-three of significand. The comparisons and the product here are made on the bits, and are
//! what the format's own operations give.

use vstd::arithmetic::power2;
use vstd::prelude::*;

verus! {

/// A single-precision number.
#[derive(Debug, Clone, Copy, PartialEq, Eq, Structural)]
pub struct Fraction {
    /// The bits of the number, sign first.
    pub bits: u32,
}

/// What the significand counts in the exponent's unit where the exponent is not zero.
pub open spec fn hidden_bit() -> nat {
    0x80_0000
}

impl Fraction {
    /// The exponent field.
    pub open spec fn exponent(self) -> nat {
        (self.bits as nat / 0x80_0000) % 256
    }

    /// The significand field.
    pub open spec fn significand(self) -> nat {
        self.bits as nat % 0x80_0000
    }

    /// Whether the sign bit is set.
    pub open spec fn negative(self) -> bool {
        self.bits >= 0x8000_0000
    }

    /// Whether the bits stand for no number.
    pub open spec fn is_nan(self) -> bool {
        self.exponent() == 255 && self.significand() != 0
    }

    /// The absolute value, in units of two to the power of minus 149. An infinity counts as what its
    /// fields make, which is more than any number.
    pub open spec fn magnitude(self) -> nat {
        if self.exponent() == 0 {
            self.significand()
        } else {
            (hidden_bit() + self.significand()) * power2::pow2((self.exponent() - 1) as nat)
        }
    }

    /// The value, in units of two to the power of minus 149.
    pub open spec fn scaled(self) -> int {
        if self.negative() {
            -(self.magnitude() as int)
        } else {
            self.magnitude() as int
        }
    }

    /// Whether the number is zero or less.
    pub open spec fn at_most_zero(self) -> bool {
        !self.is_nan() && self.scaled() <= 0
    }

    /// Whether the number is one or more.
    pub open spec fn at_least_one(self) -> bool {
        !self.is_nan() && self.scaled() >= power2::pow2(149)
    }

    /// Whether the number is between zero and one, these included.
    pub open spec fn within_unit(self) -> bool {
        !self.is_nan() && 0 <= self.scaled() <= power2::pow2(149)
    }

    /// Whether the number is zero or less.
    pub fn is_at_most_zero(&self) -> (res: bool)
        ensures
            res == self.at_most_zero(),
    {
        proof {
            lemma_magnitude(*self);
        }
        self.bits == 0 || (self.bits >= 0x8000_0000 && self.bits <= 0xff80_0000)
    }

    /// Whether the number is one or more.
    pub fn is_at_least_one(&self) -> (res: bool)
        ensures
            res == self.at_least_one(),
    {
        proof {
            lemma_magnitude(*self);
        }
        self.bits >= 0x3f80_0000 && self.bits <= 0x7f80_0000
    }

    /// Whether the number is between zero and one, these included.
    pub fn is_within_unit(&self) -> (res: bool)
        ensures
            res == self.within_unit(),
    {
        proof {
            lemma_magnitude(*self);
        }
        self.bits <= 0x3f80_0000 || self.bits == 0x8000_0000
    }
}

/// How the magnitude compares with zero and one, by the fields.
proof fn lemma_magnitude(f: Fraction)
    ensures
        f.magnitude() == 0 <==> f.exponent() == 0 && f.significand() == 0,
        f.magnitude() >= power2::pow2(149) <==> f.exponent() >= 127,
        f.magnitude() == power2::pow2(149) <==> f.exponent() == 127 && f.significand() == 0,
{
    let e = f.exponent();
    let m = f.significand();
    let one = power2::pow2(149);
    assert(power2::pow2(23) == 0x80_0000) by {
        power2::lemma2_to64();
    }
    power2::lemma_pow2_adds(23, 126);
    power2::lemma_pow2_pos(126);
    power2::lemma_pow2_pos(149);
    if e == 0 {
        power2::lemma_pow2_strictly_increases(23, 149);
    } else {
        let p = power2::pow2((e - 1) as nat);
        power2::lemma_pow2_pos((e - 1) as nat);
        assert((hidden_bit() + m) * p > 0) by (nonlinear_arith)
            requires
                p > 0,
                hidden_bit() > 0,
        ;
        if e < 127 {
            power2::lemma_pow2_adds(24, (e - 1) as nat);
            power2::lemma_pow2_unfold(24);
            assert((hidden_bit() + m) * p < 0x100_0000 * p) by (nonlinear_arith)
                requires
                    p > 0,
                    hidden_bit() + m < 0x100_0000,
            ;
            if e < 126 {
                power2::lemma_pow2_strictly_increases((24 + e - 1) as nat, 149);
            }
        } else if e == 127 {
            assert((hidden_bit() + m) * p == hidden_bit() * p + m * p) by (nonlinear_arith);
            assert(m > 0 ==> m * p > 0) by (nonlinear_arith)
                requires
                    p > 0,
            ;
            assert(m == 0 ==> m * p == 0);
        } else {
            power2::lemma_pow2_adds(23, (e - 1) as nat);
            power2::lemma_pow2_strictly_increases(149, (23 + e - 1) as nat);
            assert((hidden_bit() + m) * p >= hidden_bit() * p) by (nonlinear_arith)
                requires
                    p > 0,
            ;
        }
    }
}

/// How many binary digits `n` has.
pub open spec fn bit_length(n: nat) -> nat
    decreases n,
{
    if n == 0 {
        0
    } else {
        1 + bit_length(n / 2)
    }
}

/// `n` to twenty-four binary digits: the nearest number whose further digits are zero, and of two that
/// are equally near the one whose last digit is even.
pub open spec fn single(n: nat) -> nat {
    let digits = bit_length(n);
    if digits <= 24 {
        n
    } else {
        let unit = power2::pow2((digits - 24) as nat);
        let head = n / unit;
        let rest = n % unit;
        if 2 * rest < unit || (2 * rest == unit && head % 2 == 0) {
            head * unit
        } else {
            (head + 1) * unit
        }
    }
}

impl Fraction {
    /// The fraction of `total`, computed in single precision, rounded up. Zero where the bits stand for
    /// no number, or for one below zero.
    pub open spec fn share_of(self, total: nat) -> nat {
        if self.is_nan() || self.negative() {
            0
        } else {
            let one = power2::pow2(149);
            let product = single(single(total) * self.magnitude());
            ((product + one - 1) / one as int) as nat
        }
    }
}

proof fn lemma_bit_length(n: nat)
    ensures
        n > 0 ==> bit_length(n) > 0 && power2::pow2((bit_length(n) - 1) as nat) <= n,
        n < power2::pow2(bit_length(n)),
    decreases n,
{
    power2::lemma2_to64();
    if n > 0 {
        lemma_bit_length(n / 2);
        power2::lemma_pow2_unfold(bit_length(n));
        if n > 1 {
            power2::lemma_pow2_unfold(bit_length(n / 2));
        }
    }
}

proof fn lemma_single_double(n: nat)
    ensures
        single(2 * n) == 2 * single(n),
{
    let digits = bit_length(n);
    if n > 0 {
        assert((2 * n) / 2 == n);
        assert(bit_length(2 * n) == digits + 1);
        power2::lemma2_to64();
        if digits == 24 {
            assert(power2::pow2(1) == 2);
            assert((2 * n) % 2 == 0);
        } else if digits > 24 {
            let unit = power2::pow2((digits - 24) as nat);
            let twice = power2::pow2((digits + 1 - 24) as nat);
            power2::lemma_pow2_unfold((digits + 1 - 24) as nat);
            power2::lemma_pow2_pos((digits - 24) as nat);
            let head = n / unit;
            let rest = n % unit;
            vstd::arithmetic::div_mod::lemma_fundamental_div_mod(n as int, unit as int);
            vstd::arithmetic::div_mod::lemma_mod_bound(n as int, unit as int);
            assert(2 * n == head * twice + 2 * rest) by (nonlinear_arith)
                requires
                    n == unit * head + rest,
                    twice == 2 * unit,
            ;
            vstd::arithmetic::div_mod::lemma_fundamental_div_mod_converse(
                (2 * n) as int,
                twice as int,
                head as int,
                (2 * rest) as int,
            );
            assert(head * twice == 2 * (head * unit)) by (nonlinear_arith)
                requires
                    twice == 2 * unit,
            ;
            assert((head + 1) * twice == 2 * ((head + 1) * unit)) by (nonlinear_arith)
                requires
                    twice == 2 * unit,
            ;
        }
    }
}

proof fn lemma_single_scaled(n: nat, k: nat)
    ensures
        single(n * power2::pow2(k)) == single(n) * power2::pow2(k),
    decreases k,
{
    if k == 0 {
        power2::lemma2_to64();
    } else {
        let j = (k - 1) as nat;
        lemma_single_scaled(n, j);
        power2::lemma_pow2_unfold(k);
        let p = power2::pow2(j);
        assert(n * (2 * p) == 2 * (n * p)) by (nonlinear_arith);
        lemma_single_double(n * p);
        assert(single(n) * (2 * p) == 2 * (single(n) * p)) by (nonlinear_arith);
    }
}

proof fn lemma_bit_length_grows(n: nat, m: nat)
    requires
        n <= m,
    ensures
        bit_length(n) <= bit_length(m),
    decreases m,
{
    if n > 0 {
        lemma_bit_length_grows(n / 2, m / 2);
    }
}

/// Where a number of more than twenty-four digits stands, and its rounded value with it.
proof fn lemma_single_bounds(n: nat)
    ensures
        single(n) <= power2::pow2(bit_length(n)),
        n > 0 ==> power2::pow2((bit_length(n) - 1) as nat) <= single(n),
{
    let digits = bit_length(n);
    lemma_bit_length(n);
    if digits > 24 {
        let unit = power2::pow2((digits - 24) as nat);
        let head = n / unit;
        let rest = n % unit;
        power2::lemma2_to64();
        power2::lemma_pow2_pos((digits - 24) as nat);
        power2::lemma_pow2_adds(24, (digits - 24) as nat);
        power2::lemma_pow2_adds(23, (digits - 24) as nat);
        vstd::arithmetic::div_mod::lemma_fundamental_div_mod(n as int, unit as int);
        vstd::arithmetic::div_mod::lemma_mod_bound(n as int, unit as int);
        assert(0x80_0000 <= head < 0x100_0000) by (nonlinear_arith)
            requires
                n == unit * head + rest,
                0x80_0000 * unit <= n < 0x100_0000 * unit,
                0 <= rest < unit,
        ;
        assert(0x80_0000 * unit <= head * unit <= (head + 1) * unit <= 0x100_0000 * unit)
            by (nonlinear_arith)
            requires
                0x80_0000 <= head < 0x100_0000,
                unit > 0,
        ;
    }
}

/// Rounding keeps the order.
proof fn lemma_single_grows(n: nat, m: nat)
    requires
        n <= m,
    ensures
        single(n) <= single(m),
{
    let digits = bit_length(n);
    lemma_bit_length_grows(n, m);
    if digits < bit_length(m) {
        lemma_single_bounds(n);
        lemma_single_bounds(m);
        if digits < bit_length(m) - 1 {
            power2::lemma_pow2_strictly_increases(digits, (bit_length(m) - 1) as nat);
        }
    } else if digits > 24 {
        let unit = power2::pow2((digits - 24) as nat);
        let a = n / unit;
        let b = m / unit;
        let r = n % unit;
        let t = m % unit;
        power2::lemma_pow2_pos((digits - 24) as nat);
        vstd::arithmetic::div_mod::lemma_fundamental_div_mod(n as int, unit as int);
        vstd::arithmetic::div_mod::lemma_mod_bound(n as int, unit as int);
        vstd::arithmetic::div_mod::lemma_fundamental_div_mod(m as int, unit as int);
        vstd::arithmetic::div_mod::lemma_mod_bound(m as int, unit as int);
        assert(a <= b) by (nonlinear_arith)
            requires
                unit * a + r <= unit * b + t,
                0 <= r,
                t < unit,
        ;
        if a < b {
            assert((a + 1) * unit <= b * unit <= (b + 1) * unit && a * unit <= (a + 1) * unit)
                by (nonlinear_arith)
                requires
                    a < b,
                    unit > 0,
            ;
        } else {
            assert(a * unit <= (a + 1) * unit) by (nonlinear_arith)
                requires
                    unit > 0,
            ;
        }
    }
}

proof fn lemma_zero_share(f: Fraction, total: nat)
    requires
        f.scaled() <= 0,
    ensures
        f.share_of(total) == 0,
{
    let one = power2::pow2(149);
    power2::lemma_pow2_pos(149);
    if !f.negative() {
        assert(single(total) * 0 == 0);
        vstd::arithmetic::div_mod::lemma_basic_div(one - 1, one as int);
    }
}

/// Of two numbers the greater makes no smaller share, and equal numbers make the same.
pub proof fn greater_fraction_makes_no_smaller_share(p: Fraction, q: Fraction, total: nat)
    requires
        !p.is_nan(),
        !q.is_nan(),
        p.scaled() <= q.scaled(),
    ensures
        p.share_of(total) <= q.share_of(total),
        p.scaled() == q.scaled() ==> p.share_of(total) == q.share_of(total),
{
    let one = power2::pow2(149);
    let t = single(total);
    let a = p.magnitude();
    let b = q.magnitude();
    power2::lemma_pow2_pos(149);
    if p.scaled() <= 0 {
        lemma_zero_share(p, total);
        if q.scaled() <= 0 {
            lemma_zero_share(q, total);
        }
    } else {
        assert(t * a <= t * b) by (nonlinear_arith)
            requires
                a <= b,
        ;
        lemma_single_grows(t * a, t * b);
        vstd::arithmetic::div_mod::lemma_div_is_ordered(
            single(t * a) + one - 1,
            single(t * b) + one - 1,
            one as int,
        );
        vstd::arithmetic::div_mod::lemma_div_pos_is_pos(single(t * a) + one - 1, one as int);
    }
}

/// Two to the power of `k`.
fn power(k: u32) -> (res: u64)
    requires
        k < 64,
    ensures
        res == power2::pow2(k as nat),
{
    let mut p: u64 = 1;
    let mut i: u32 = 0;
    proof {
        power2::lemma2_to64();
    }
    while i < k
        invariant
            i <= k < 64,
            p == power2::pow2(i as nat),
        decreases k - i,
    {
        proof {
            power2::lemma_pow2_unfold((i + 1) as nat);
            power2::lemma2_to64_rest();
            if i + 1 < 63 {
                power2::lemma_pow2_strictly_increases((i + 1) as nat, 63);
            }
        }
        p = 2 * p;
        i = i + 1;
    }
    p
}

/// How many binary digits `n` has.
fn count_digits(n: u64) -> (res: u32)
    ensures
        res == bit_length(n as nat),
        res <= 64,
{
    let mut rest: u64 = n;
    let mut count: u32 = 0;
    while rest > 0
        invariant
            bit_length(n as nat) == count + bit_length(rest as nat),
        decreases rest,
    {
        rest = rest / 2;
        proof {
            lemma_bit_length(n as nat);
            power2::lemma2_to64_rest();
            if bit_length(n as nat) > 65 {
                power2::lemma_pow2_strictly_increases(64, (bit_length(n as nat) - 1) as nat);
            }
        }
        count = count + 1;
    }
    proof {
        lemma_bit_length(n as nat);
        power2::lemma2_to64_rest();
        if count > 65 {
            power2::lemma_pow2_strictly_increases(64, (count - 1) as nat);
        }
    }
    count
}

/// `n` to twenty-four binary digits: the digits, and how many zeros follow them.
fn to_single(n: u64) -> (res: (u64, u32))
    ensures
        res.0 * power2::pow2(res.1 as nat) == single(n as nat),
        res.0 <= 0x100_0000,
        n > 0 ==> res.0 > 0,
        res.1 <= 40,
{
    let digits: u32 = count_digits(n);
    proof {
        lemma_bit_length(n as nat);
        power2::lemma2_to64();
    }
    if digits <= 24 {
        proof {
            if digits < 24 {
                power2::lemma_pow2_strictly_increases(digits as nat, 24);
            }
            assert(n * power2::pow2(0) == n) by (nonlinear_arith)
                requires
                    power2::pow2(0) == 1,
            ;
        }
        return (n, 0);
    }
    let zeros: u32 = digits - 24;
    let unit: u64 = power(zeros);
    proof {
        power2::lemma_pow2_pos(zeros as nat);
        power2::lemma_pow2_adds(24, zeros as nat);
        power2::lemma_pow2_adds(23, zeros as nat);
        vstd::arithmetic::div_mod::lemma_fundamental_div_mod(n as int, unit as int);
        vstd::arithmetic::div_mod::lemma_mod_bound(n as int, unit as int);
    }
    let head: u64 = n / unit;
    let rest: u64 = n % unit;
    assert(head < 0x100_0000) by (nonlinear_arith)
        requires
            n == unit * head + rest,
            n < 0x100_0000 * unit,
            rest >= 0,
            unit > 0,
    ;
    assert(head > 0) by (nonlinear_arith)
        requires
            n == unit * head + rest,
            n >= 0x80_0000 * unit,
            rest < unit,
            unit > 0,
    ;
    if rest < unit - rest || (rest == unit - rest && head % 2 == 0) {
        (head, zeros)
    } else {
        (head + 1, zeros)
    }
}

proof fn lemma_product(ts: nat, te: nat, sig: nat, ex: nat, ps: nat, pe: nat)
    requires
        ps * power2::pow2(pe) == single(ts * sig),
    ensures
        single((ts * power2::pow2(te)) * (sig * power2::pow2(ex))) == ps * power2::pow2(
            pe + te + ex,
        ),
{
    let a = power2::pow2(te);
    let b = power2::pow2(ex);
    let c = power2::pow2(pe);
    assert((ts * a) * (sig * b) == (ts * sig) * (a * b)) by (nonlinear_arith);
    power2::lemma_pow2_adds(te, ex);
    lemma_single_scaled(ts * sig, te + ex);
    power2::lemma_pow2_adds(pe, te + ex);
    assert((ps * c) * (a * b) == ps * (c * (a * b))) by (nonlinear_arith);
}

proof fn lemma_rounded_up(n: nat, one: nat, c: nat)
    requires
        one > 0,
        n <= c * one,
        n > (c - 1) * one,
    ensures
        (n + one - 1) / one as int == c,
{
    let r = n + one - 1 - c * one;
    assert((c - 1) * one == c * one - one) by (nonlinear_arith);
    vstd::arithmetic::div_mod::lemma_fundamental_div_mod_converse(
        n + one - 1,
        one as int,
        c as int,
        r,
    );
}

impl Fraction {
    /// The fraction of `total`, computed in single precision, rounded up.
    pub fn share(&self, total: usize) -> (res: u128)
        requires
            !self.at_most_zero(),
            !self.at_least_one(),
        ensures
            res == self.share_of(total as nat),
    {
        proof {
            lemma_magnitude(*self);
            power2::lemma2_to64();
        }
        if self.bits >= 0x7f80_0000 {
            return 0;
        }
        let exponent: u32 = self.bits / 0x80_0000;
        let significand: u64 = (self.bits % 0x80_0000) as u64;
        let sig: u64 = if exponent == 0 {
            significand
        } else {
            0x80_0000 + significand
        };
        let ex: u32 = if exponent == 0 {
            0
        } else {
            exponent - 1
        };
        let (ts, te): (u64, u32) = to_single(total as u64);
        assert(ts * sig <= 0x1_0000_0000_0000) by (nonlinear_arith)
            requires
                0 <= ts <= 0x100_0000,
                0 <= sig <= 0x100_0000,
        ;
        let (ps, pe): (u64, u32) = to_single(ts * sig);
        let scale: u32 = pe + te + ex;
        let ghost one = power2::pow2(149);
        let ghost product = ps * power2::pow2(scale as nat);
        proof {
            lemma_product(ts as nat, te as nat, sig as nat, ex as nat, ps as nat, pe as nat);
            power2::lemma_pow2_pos(149);
            assert(self.magnitude() == sig * power2::pow2(ex as nat));
            assert(single(single(total as nat) * self.magnitude()) == product);
        }
        if scale >= 149 {
            let factor: u64 = power(scale - 149);
            proof {
                power2::lemma_pow2_adds((scale - 149) as nat, 149);
                let c = (ps * factor) as nat;
                assert(product == c * one) by (nonlinear_arith)
                    requires
                        product == ps * (factor * one),
                        c == ps * factor,
                ;
                assert(product > (c - 1) * one) by (nonlinear_arith)
                    requires
                        product == c * one,
                        one > 0,
                ;
                lemma_rounded_up(product as nat, one, c);
                power2::lemma2_to64_rest();
                if scale < 205 {
                    power2::lemma_pow2_strictly_increases((scale - 149) as nat, 56);
                }
                assert(ps * factor <= 0x100_0000 * 0x100_0000_0000_0000) by (nonlinear_arith)
                    requires
                        0 <= ps <= 0x100_0000,
                        0 <= factor <= 0x100_0000_0000_0000,
                ;
            }
            return (ps as u128) * (factor as u128);
        }
        let shift: u32 = 149 - scale;
        let ghost small = power2::pow2(scale as nat);
        let ghost large = power2::pow2(shift as nat);
        proof {
            power2::lemma_pow2_adds(shift as nat, scale as nat);
            power2::lemma_pow2_pos(scale as nat);
        }
        if shift > 24 {
            proof {
                power2::lemma_pow2_strictly_increases(24, shift as nat);
                let c: nat = if ps == 0 {
                    0
                } else {
                    1
                };
                assert(product <= c * one && product > (c - 1) * one) by (nonlinear_arith)
                    requires
                        product == ps * small,
                        one == large * small,
                        small > 0,
                        large > ps,
                        c == 0 && ps == 0 || c == 1 && ps > 0,
                ;
                lemma_rounded_up(product as nat, one, c);
            }
            return if ps == 0 {
                0
            } else {
                1
            };
        }
        let factor: u64 = power(shift);
        proof {
            if shift < 24 {
                power2::lemma_pow2_strictly_increases(shift as nat, 24);
            }
            power2::lemma_pow2_pos(shift as nat);
            let c = ((ps + factor - 1) / factor as int) as nat;
            vstd::arithmetic::div_mod::lemma_fundamental_div_mod(ps + factor - 1, factor as int);
            vstd::arithmetic::div_mod::lemma_mod_bound(ps + factor - 1, factor as int);
            let r = (ps + factor - 1) % (factor as int);
            assert(ps <= c * factor && ps > (c - 1) * factor) by (nonlinear_arith)
                requires
                    ps + factor - 1 == factor * c + r,
                    0 <= r < factor,
            ;
            assert(product <= c * one && product > (c - 1) * one) by (nonlinear_arith)
                requires
                    product == ps * small,
                    one == factor * small,
                    small > 0,
                    ps <= c * factor,
                    ps > (c - 1) * factor,
            ;
            lemma_rounded_up(product as nat, one, c);
        }
        ((ps + factor - 1) / factor) as u128
    }
}

/// Whether a fraction is zero or less, one or more, or between them can be told from its bits: those of
/// a positive number are in the order of the numbers, and those of one and of the infinities are known.
pub proof fn bits_tell_where_a_fraction_stands(f: Fraction)
    ensures
        f.at_most_zero() <==> f.bits == 0 || 0x8000_0000 <= f.bits <= 0xff80_0000,
        f.at_least_one() <==> 0x3f80_0000 <= f.bits <= 0x7f80_0000,
        f.within_unit() <==> f.bits <= 0x3f80_0000 || f.bits == 0x8000_0000,
        f.is_nan() <==> 0x7f80_0000 < f.bits < 0x8000_0000 || f.bits > 0xff80_0000,
        f.is_nan() ==> forall|total: nat| #[trigger] f.share_of(total) == 0,
        f.bits < 0x8000_0000 ==> f.scaled() == f.magnitude() && f.magnitude() == (Fraction {
            bits: (f.bits + 0x8000_0000) as u32,
        }).magnitude(),
        f.bits >= 0x8000_0000 ==> f.scaled() == -f.magnitude(),
{
    lemma_magnitude(f);
}

/// The absolute value of a number, by its bits: below the least exponent they count units, and each
/// step of the exponent doubles what a step of the significand is worth.
pub proof fn exponent_doubles_the_value(bits: u32, significand: u32, exponent: u32)
    requires
        significand < 0x80_0000,
        exponent < 254,
        bits == exponent * 0x80_0000 + significand,
    ensures
        bits < 0x80_0000 ==> (Fraction { bits }).magnitude() == bits,
        exponent == 1 ==> (Fraction { bits }).magnitude() == bits,
        exponent >= 1 ==> (Fraction { bits: (bits + 0x80_0000) as u32 }).magnitude() == 2 * (
        Fraction { bits }).magnitude(),
        (Fraction { bits: 0x3f80_0000 }).magnitude() == power2::pow2(149),
{
    let f = Fraction { bits };
    let g = Fraction { bits: (bits + 0x80_0000) as u32 };
    let one = Fraction { bits: 0x3f80_0000 };
    assert(f.exponent() == exponent && f.significand() == significand);
    assert(g.exponent() == exponent + 1 && g.significand() == significand);
    lemma_magnitude(one);
    power2::lemma2_to64();
    if exponent >= 1 {
        power2::lemma_pow2_unfold(exponent as nat);
        let p = power2::pow2((exponent - 1) as nat);
        assert((hidden_bit() + significand) * (2 * p) == 2 * ((hidden_bit() + significand) * p))
            by (nonlinear_arith);
        if exponent == 1 {
            assert((hidden_bit() + significand) * p == hidden_bit() + significand)
                by (nonlinear_arith)
                requires
                    p == 1,
            ;
        }
    }
}

/// Rounding to twenty-four digits changes no number that has no more, doubles with the number, and is
/// off by no more than half of the last digit's worth; where it is off by half, the last digit is even.
pub proof fn single_is_the_nearest(n: nat)
    ensures
        n < 0x100_0000 ==> single(n) == n,
        single(2 * n) == 2 * single(n),
        forall|k: nat|
            0x80_0000 * #[trigger] power2::pow2(k) <= n < 0x100_0000 * power2::pow2(k) ==> {
                let unit = power2::pow2(k) as int;
                let off = single(n) - n;
                &&& single(n) % unit as nat == 0
                &&& -unit <= 2 * off <= unit
                &&& 2 * off == unit || 2 * off == -unit ==> (single(n) / unit as nat) % 2 == 0
            },
{
    lemma_single_double(n);
    lemma_bit_length(n);
    power2::lemma2_to64();
    if n < 0x100_0000 && bit_length(n) > 24 {
        if bit_length(n) > 25 {
            power2::lemma_pow2_strictly_increases(24, (bit_length(n) - 1) as nat);
        }
    }
    assert forall|k: nat|
        0x80_0000 * #[trigger] power2::pow2(k) <= n < 0x100_0000 * power2::pow2(k) implies {
        let unit = power2::pow2(k) as int;
        let off = single(n) - n;
        &&& single(n) % unit as nat == 0
        &&& -unit <= 2 * off <= unit
        &&& 2 * off == unit || 2 * off == -unit ==> (single(n) / unit as nat) % 2 == 0
    } by {
        lemma_single_off(n, k);
    }
}

proof fn lemma_single_off(n: nat, k: nat)
    requires
        0x80_0000 * power2::pow2(k) <= n < 0x100_0000 * power2::pow2(k),
    ensures
        ({
            let unit = power2::pow2(k) as int;
            let off = single(n) - n;
            &&& single(n) % unit as nat == 0
            &&& -unit <= 2 * off <= unit
            &&& 2 * off == unit || 2 * off == -unit ==> (single(n) / unit as nat) % 2 == 0
        }),
{
    let digits = bit_length(n);
    let unit = power2::pow2(k);
    lemma_bit_length(n);
    power2::lemma2_to64();
    power2::lemma_pow2_pos(k);
    power2::lemma_pow2_adds(24, k);
    power2::lemma_pow2_adds(23, k);
    if digits < 24 + k {
        if digits < 23 + k {
            power2::lemma_pow2_strictly_increases(digits, (23 + k) as nat);
        }
    } else if digits > 24 + k {
        if digits - 1 > 24 + k {
            power2::lemma_pow2_strictly_increases((24 + k) as nat, (digits - 1) as nat);
        }
    }
    assert(digits == 24 + k);
    let head = n / unit;
    let rest = n % unit;
    vstd::arithmetic::div_mod::lemma_fundamental_div_mod(n as int, unit as int);
    vstd::arithmetic::div_mod::lemma_mod_bound(n as int, unit as int);
    if k == 0 {
        assert(unit == 1);
        vstd::arithmetic::div_mod::lemma_mod_self_0(1);
    } else {
        assert(unit * head == head * unit) by (nonlinear_arith);
        assert((head + 1) * unit == head * unit + unit) by (nonlinear_arith);
        vstd::arithmetic::div_mod::lemma_div_multiples_vanish(head as int, unit as int);
        vstd::arithmetic::div_mod::lemma_div_multiples_vanish(head as int + 1, unit as int);
        vstd::arithmetic::div_mod::lemma_mod_multiples_basic(head as int, unit as int);
        vstd::arithmetic::div_mod::lemma_mod_multiples_basic(head as int + 1, unit as int);
        assert(unit * (head + 1) == (head + 1) * unit) by (nonlinear_arith);
    }
}

/// The share is the product of the total and the fraction, each step in twenty-four digits, rounded up:
/// the product is more than one less than the share, and no more than it.
pub proof fn share_is_the_product_rounded_up(f: Fraction, total: nat)
    requires
        0 < f.bits < 0x7f80_0000,
    ensures
        ({
            let product = single(single(total) * f.magnitude());
            let one = power2::pow2(149);
            let share = f.share_of(total) as int;
            (share - 1) * one < product <= share * one
        }),
{
    let product = single(single(total) * f.magnitude()) as int;
    let one = power2::pow2(149) as int;
    power2::lemma_pow2_pos(149);
    bits_tell_where_a_fraction_stands(f);
    let share = (product + one - 1) / one;
    vstd::arithmetic::div_mod::lemma_fundamental_div_mod(product + one - 1, one);
    vstd::arithmetic::div_mod::lemma_mod_bound(product + one - 1, one);
    vstd::arithmetic::div_mod::lemma_div_pos_is_pos(product + one - 1, one);
    assert((share - 1) * one == one * share - one) by (nonlinear_arith);
    assert(share * one == one * share) by (nonlinear_arith);
}

} // verus!
