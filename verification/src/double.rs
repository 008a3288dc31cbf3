//! IEEE 754 binary64 numbers, with arithmetic that is correctly rounded.

use crate::rounding;
use vstd::arithmetic::div_mod::*;
use vstd::arithmetic::power2::*;
use vstd::prelude::*;

verus! {

/// The weight of the sign bit.
pub const SIGN: u64 = 0x8000_0000_0000_0000;

/// A binary64 number, held by its bit pattern.
#[derive(Clone, Copy, Debug, PartialEq, Eq, Structural)]
pub struct Double {
    pub bits: u64,
}

/// The bit pattern of positive zero.
pub const ZERO: u64 = 0;

/// The bit pattern that an operation without a value results in.
pub const NAN: u64 = 0x7FF8_0000_0000_0000;

/// How many steps of 2^-1074 make one.
pub open spec fn one_in_steps() -> nat {
    pow2(1074)
}

/// The number with the given sign and magnitude pattern.
pub open spec fn signed(negative: bool, magnitude: nat) -> Double {
    Double {
        bits: (if negative {
            SIGN + magnitude
        } else {
            magnitude as int
        }) as u64,
    }
}

/// The whole number `n`, rounded.
pub open spec fn whole(n: nat) -> Double {
    signed(false, rounding::capped(rounding::nearest(n * one_in_steps(), 1)))
}

/// The fraction `n / d`, for `n` and `d` that need no rounding themselves.
pub open spec fn ratio(n: nat, d: nat) -> Double {
    whole(n).quotient(whole(d))
}

impl Double {
    /// Whether the sign bit is set.
    pub open spec fn negative(self) -> bool {
        self.bits >= SIGN
    }

    /// The pattern without the sign bit.
    pub open spec fn magnitude(self) -> nat {
        if self.bits >= SIGN {
            (self.bits - SIGN) as nat
        } else {
            self.bits as nat
        }
    }

    /// Whether this is not a number.
    pub open spec fn nan(self) -> bool {
        self.magnitude() > rounding::INFINITE
    }

    /// Whether this is one of the infinities.
    pub open spec fn infinite(self) -> bool {
        self.magnitude() == rounding::INFINITE
    }

    /// Whether this is a number other than the infinities.
    pub open spec fn finite(self) -> bool {
        self.magnitude() < rounding::INFINITE
    }

    /// The value in steps of 2^-1074. The infinities stand at plus and minus
    /// 2^1024, farther out than every finite number.
    pub open spec fn value(self) -> int {
        if self.negative() {
            -(rounding::steps(self.magnitude()) as int)
        } else {
            rounding::steps(self.magnitude()) as int
        }
    }

    /// Whether `self` is a smaller number than `other`.
    pub open spec fn below(self, other: Double) -> bool {
        !self.nan() && !other.nan() && self.value() < other.value()
    }

    /// Whether `self` is a number not greater than `other`.
    pub open spec fn at_most(self, other: Double) -> bool {
        !self.nan() && !other.nan() && self.value() <= other.value()
    }

    /// The number with the opposite sign.
    pub open spec fn negation(self) -> Double {
        signed(!self.negative(), self.magnitude())
    }

    /// The correctly rounded sum.
    pub open spec fn sum(self, other: Double) -> Double {
        if self.nan() || other.nan() {
            Double { bits: NAN }
        } else if self.infinite() {
            if other.infinite() && self.negative() != other.negative() {
                Double { bits: NAN }
            } else {
                self
            }
        } else if other.infinite() {
            other
        } else {
            let n = self.value() + other.value();
            if n == 0 {
                signed(self.negative() && other.negative(), 0)
            } else if n < 0 {
                signed(true, rounding::capped(rounding::nearest((-n) as nat, 1)))
            } else {
                signed(false, rounding::capped(rounding::nearest(n as nat, 1)))
            }
        }
    }

    /// The correctly rounded difference.
    pub open spec fn difference(self, other: Double) -> Double {
        self.sum(other.negation())
    }

    /// The correctly rounded product.
    pub open spec fn product(self, other: Double) -> Double {
        let negative = self.negative() != other.negative();
        if self.nan() || other.nan() {
            Double { bits: NAN }
        } else if self.infinite() || other.infinite() {
            if self.magnitude() == 0 || other.magnitude() == 0 {
                Double { bits: NAN }
            } else {
                signed(negative, rounding::INFINITE as nat)
            }
        } else {
            let n = rounding::steps(self.magnitude()) * rounding::steps(other.magnitude());
            signed(negative, rounding::capped(rounding::nearest(n, one_in_steps())))
        }
    }

    /// The correctly rounded quotient.
    pub open spec fn quotient(self, other: Double) -> Double {
        let negative = self.negative() != other.negative();
        if self.nan() || other.nan() {
            Double { bits: NAN }
        } else if self.infinite() {
            if other.infinite() {
                Double { bits: NAN }
            } else {
                signed(negative, rounding::INFINITE as nat)
            }
        } else if other.infinite() {
            signed(negative, 0)
        } else if other.magnitude() == 0 {
            if self.magnitude() == 0 {
                Double { bits: NAN }
            } else {
                signed(negative, rounding::INFINITE as nat)
            }
        } else {
            let n = rounding::steps(self.magnitude()) * one_in_steps();
            signed(
                negative,
                rounding::capped(rounding::nearest(n, rounding::steps(other.magnitude()))),
            )
        }
    }

    /// The integer part, 0 for what is negative or not a number, and the
    /// greatest `u64` for what is greater.
    pub open spec fn integer_part(self) -> nat {
        if self.nan() || self.negative() {
            0
        } else {
            let n = rounding::steps(self.magnitude()) / one_in_steps();
            if n > u64::MAX {
                u64::MAX as nat
            } else {
                n
            }
        }
    }

    /// The number with this bit pattern.
    pub fn from_bits(bits: u64) -> (r: Double)
        ensures
            r.bits == bits,
    {
        Double { bits }
    }

    /// The bit pattern of this number.
    pub fn to_bits(self) -> (r: u64)
        ensures
            r == self.bits,
    {
        self.bits
    }

    /// Whether the sign bit is set.
    pub fn is_negative(self) -> (r: bool)
        ensures
            r == self.negative(),
    {
        self.bits >= SIGN
    }

    /// Whether this is not a number.
    pub fn is_nan(self) -> (r: bool)
        ensures
            r == self.nan(),
    {
        self.pattern() > rounding::INFINITE
    }

    /// Whether this is one of the infinities.
    pub fn is_infinite(self) -> (r: bool)
        ensures
            r == self.infinite(),
    {
        self.pattern() == rounding::INFINITE
    }

    /// The pattern without the sign bit.
    pub fn pattern(self) -> (r: u64)
        ensures
            r == self.magnitude(),
    {
        if self.bits >= SIGN {
            self.bits - SIGN
        } else {
            self.bits
        }
    }

    /// The number with the given sign and magnitude pattern.
    pub(crate) fn assemble(negative: bool, magnitude: u64) -> (r: Double)
        requires
            magnitude < SIGN,
        ensures
            r == signed(negative, magnitude as nat),
    {
        if negative {
            Double { bits: SIGN + magnitude }
        } else {
            Double { bits: magnitude }
        }
    }

    /// Whether `self < other`.
    pub fn lt(self, other: Double) -> (r: bool)
        ensures
            r == self.below(other),
    {
        if self.is_nan() || other.is_nan() {
            return false;
        }
        let a = self.pattern();
        let b = other.pattern();
        proof {
            lemma_steps_order(a as nat, b as nat);
            lemma_steps_order(a as nat, 0);
            lemma_steps_order(b as nat, 0);
        }
        if self.is_negative() {
            if other.is_negative() {
                b < a
            } else {
                a > 0 || b > 0
            }
        } else if other.is_negative() {
            false
        } else {
            a < b
        }
    }

    /// Whether `self <= other`.
    pub fn le(self, other: Double) -> (r: bool)
        ensures
            r == self.at_most(other),
    {
        if self.is_nan() || other.is_nan() {
            return false;
        }
        !other.lt(self)
    }

    /// `-self`.
    pub fn negated(self) -> (r: Double)
        ensures
            r == self.negation(),
    {
        Double::assemble(!self.is_negative(), self.pattern())
    }
}

/// Comparing patterns is comparing what they amount to.
proof fn lemma_steps_order(a: nat, b: nat)
    ensures
        a < b <==> rounding::steps(a) < rounding::steps(b),
        a == b <==> rounding::steps(a) == rounding::steps(b),
{
    if a < b {
        rounding::lemma_steps_increase(a, b);
    } else if b < a {
        rounding::lemma_steps_increase(b, a);
    }
}

/// The significand `c` and the spacing exponent `k` of a finite pattern.
pub(crate) fn split(m: u64) -> (r: (u64, u32))
    requires
        m < rounding::INFINITE,
    ensures
        r.0 < 2 * rounding::BINADE,
        r.1 <= 2045,
        r.1 > 0 ==> r.0 >= rounding::BINADE,
        r.1 * rounding::BINADE + r.0 == m,
        rounding::steps(m as nat) == r.0 * pow2(r.1 as nat),
{
    if m < 2 * rounding::BINADE {
        proof {
            rounding::lemma_steps_at(m as nat, 0);
        }
        (m, 0)
    } else {
        let e: u64 = m / rounding::BINADE - 1;
        let c: u64 = m % rounding::BINADE + rounding::BINADE;
        proof {
            rounding::lemma_steps_at(c as nat, e as nat);
        }
        (c, e as u32)
    }
}

/// The rounded sum of two magnitudes.
fn add_magnitudes(a: u64, b: u64) -> (r: u64)
    requires
        b <= a < rounding::INFINITE,
    ensures
        r == rounding::capped(
            rounding::nearest(rounding::steps(a as nat) + rounding::steps(b as nat), 1),
        ),
{
    let (ca, ka) = split(a);
    let (cb, kb) = split(b);
    proof {
        lemma_split_order(ca, ka, cb, kb);
    }
    if ka - kb <= 64 {
        let f = rounding::two_to(ka - kb);
        proof {
            lemma_aligned(ca, ka, cb, kb);
        }
        rounding::round_scaled(ca as u128 * f + cb as u128, kb as i32)
    } else {
        proof {
            lemma_far(cb, kb, ka);
            rounding::lemma_nearest_absorbs(ca as nat, ka as nat, cb as nat * pow2(kb as nat));
        }
        a
    }
}

/// The rounded difference of two magnitudes.
fn subtract_magnitudes(a: u64, b: u64) -> (r: u64)
    requires
        b <= a < rounding::INFINITE,
    ensures
        rounding::steps(b as nat) <= rounding::steps(a as nat),
        r == rounding::capped(
            rounding::nearest(
                (rounding::steps(a as nat) - rounding::steps(b as nat)) as nat,
                1,
            ),
        ),
{
    let (ca, ka) = split(a);
    let (cb, kb) = split(b);
    proof {
        lemma_split_order(ca, ka, cb, kb);
        lemma_steps_order(a as nat, b as nat);
    }
    if ka - kb <= 64 {
        let f = rounding::two_to(ka - kb);
        proof {
            lemma_aligned(ca, ka, cb, kb);
        }
        rounding::round_scaled(ca as u128 * f - cb as u128, kb as i32)
    } else {
        proof {
            lemma_far(cb, kb, ka);
            rounding::lemma_nearest_absorbs(ca as nat, ka as nat, cb as nat * pow2(kb as nat));
        }
        a
    }
}

/// The greater pattern has the coarser spacing.
proof fn lemma_split_order(ca: u64, ka: u32, cb: u64, kb: u32)
    requires
        ca < 2 * rounding::BINADE,
        cb < 2 * rounding::BINADE,
        kb > 0 ==> cb >= rounding::BINADE,
        kb * rounding::BINADE + cb <= ka * rounding::BINADE + ca,
    ensures
        kb <= ka,
{
    if kb > ka {
        assert(kb * rounding::BINADE >= ka * rounding::BINADE + rounding::BINADE)
            by (nonlinear_arith)
            requires
                kb >= ka + 1,
        ;
    }
}

/// Two magnitudes, written as multiples of the finer spacing.
proof fn lemma_aligned(ca: u64, ka: u32, cb: u64, kb: u32)
    requires
        kb <= ka <= kb + 64,
        ca < 2 * rounding::BINADE,
        cb < 2 * rounding::BINADE,
    ensures
        0 <= ca * pow2((ka - kb) as nat) <= 0x40_0000_0000_0000_0000_0000_0000_0000,
        ca * pow2(ka as nat) == (ca * pow2((ka - kb) as nat)) * pow2(kb as nat),
        (ca * pow2((ka - kb) as nat) + cb) * pow2(kb as nat) == ca * pow2(ka as nat) + cb * pow2(
            kb as nat,
        ),
        (ca * pow2((ka - kb) as nat) - cb) * pow2(kb as nat) == ca * pow2(ka as nat) - cb * pow2(
            kb as nat,
        ),
        ca * pow2(ka as nat) >= cb * pow2(kb as nat) ==> ca * pow2((ka - kb) as nat) >= cb,
{
    let f = pow2((ka - kb) as nat);
    let w = pow2(kb as nat);
    lemma_pow2_pos(kb as nat);
    lemma_pow2_adds((ka - kb) as nat, kb as nat);
    lemma2_to64();
    if ka - kb < 64 {
        lemma_pow2_strictly_increases((ka - kb) as nat, 64);
    }
    assert(0 <= ca * f <= 0x40_0000_0000_0000_0000_0000_0000_0000) by (nonlinear_arith)
        requires
            0 <= ca < 0x20_0000_0000_0000,
            0 <= f <= 0x1_0000_0000_0000_0000,
    ;
    let x = ca * f;
    assert(ca * (f * w) == x * w) by (nonlinear_arith)
        requires
            x == ca * f,
    ;
    assert((x + cb) * w == x * w + cb * w) by (nonlinear_arith);
    assert((x - cb) * w == x * w - cb * w) by (nonlinear_arith);
    if x * w >= cb * w {
        assert(x >= cb) by (nonlinear_arith)
            requires
                x * w >= cb * w,
                w > 0,
        ;
    }
}

/// A magnitude with a spacing that much finer is less than a quarter of the
/// coarser spacing.
proof fn lemma_far(cb: u64, kb: u32, ka: u32)
    requires
        cb < 2 * rounding::BINADE,
        ka > kb + 64,
    ensures
        4 * (cb * pow2(kb as nat)) < pow2(ka as nat),
{
    let w = pow2(kb as nat);
    lemma_pow2_pos(kb as nat);
    lemma2_to64();
    lemma_pow2_adds(64, kb as nat);
    lemma_pow2_strictly_increases((64 + kb) as nat, ka as nat);
    assert(4 * (cb * w) < 0x1_0000_0000_0000_0000 * w) by (nonlinear_arith)
        requires
            cb < 0x20_0000_0000_0000,
            w > 0,
    ;
}

/// The rounded product of two magnitudes.
fn multiply_magnitudes(a: u64, b: u64) -> (r: u64)
    requires
        a < rounding::INFINITE,
        b < rounding::INFINITE,
    ensures
        r == rounding::capped(
            rounding::nearest(
                rounding::steps(a as nat) * rounding::steps(b as nat),
                one_in_steps(),
            ),
        ),
{
    let (ca, ka) = split(a);
    let (cb, kb) = split(b);
    let s: i32 = ka as i32 + kb as i32 - 1074;
    proof {
        assert(0 <= ca * cb <= 0x400_0000_0000_0000_0000_0000_0000) by (nonlinear_arith)
            requires
                0 <= ca < 0x20_0000_0000_0000,
                0 <= cb < 0x20_0000_0000_0000,
        ;
        let p = (ca * cb) as nat;
        let x = pow2(ka as nat);
        let y = pow2(kb as nat);
        lemma_pow2_adds(ka as nat, kb as nat);
        assert((ca * x) * (cb * y) == p * (x * y)) by (nonlinear_arith)
            requires
                p == ca * cb,
        ;
        lemma_pow2_pos((ka + kb) as nat);
        lemma_pow2_pos(1074);
        if s >= 0 {
            lemma_pow2_adds(s as nat, 1074);
            let w = pow2(s as nat);
            assert(p * (w * pow2(1074)) == (p * w) * pow2(1074)) by (nonlinear_arith);
            rounding::lemma_nearest_scale(p * w, 1, pow2(1074));
        } else {
            lemma_pow2_adds((-s) as nat, (ka + kb) as nat);
            lemma_pow2_pos((-s) as nat);
            rounding::lemma_nearest_scale(p, pow2((-s) as nat), pow2((ka + kb) as nat));
        }
    }
    rounding::round_scaled(ca as u128 * cb as u128, s)
}

/// The rounded quotient of two magnitudes.
fn divide_magnitudes(a: u64, b: u64) -> (r: u64)
    requires
        a < rounding::INFINITE,
        0 < b < rounding::INFINITE,
    ensures
        r == rounding::capped(
            rounding::nearest(
                rounding::steps(a as nat) * one_in_steps(),
                rounding::steps(b as nat),
            ),
        ),
{
    proof {
        lemma_steps_order(b as nat, 0);
    }
    if a == 0 {
        proof {
            let den = rounding::steps(b as nat);
            rounding::lemma_nearest_exact(0, den);
            assert(0 * den == 0) by (nonlinear_arith);
            assert(0 * one_in_steps() == 0) by (nonlinear_arith);
        }
        return 0;
    }
    let (ca, ka) = split(a);
    let (cb, kb) = split(b);
    proof {
        lemma_steps_order(a as nat, 0);
        assert(ca > 0) by (nonlinear_arith)
            requires
                ca * pow2(ka as nat) > 0,
        ;
        assert(cb > 0) by (nonlinear_arith)
            requires
                cb * pow2(kb as nat) > 0,
        ;
    }
    let len = rounding::bit_length(ca as u128);
    proof {
        lemma2_to64_rest();
        if len > 53 {
            if len > 54 {
                lemma_pow2_strictly_increases(53, (len - 1) as nat);
            }
        }
    }
    let sh: u32 = 126 - len;
    let f = rounding::two_to(sh);
    proof {
        lemma_dividend(ca, len, sh);
    }
    let n: u128 = ca as u128 * f;
    let q: u128 = n / cb as u128;
    let rem: u128 = n % cb as u128;
    proof {
        lemma_large_quotient(n as nat, cb as nat);
    }
    let p: u128 = if rem == 0 {
        2 * q
    } else {
        2 * q + 1
    };
    let s: i32 = ka as i32 + 1074 - sh as i32 - kb as i32 - 1;
    proof {
        let e = (ka + 1074) as nat;
        let g = (sh + kb) as nat;
        rounding::lemma_nearest_quotient(n as nat, cb as nat, e, g);
        lemma_quotient_scale(ca as nat, ka as nat, cb as nat, kb as nat, sh as nat);
    }
    rounding::round_scaled(p, s)
}

/// Shifted to 126 binary digits, a significand lies where `round_scaled` and
/// the sticky quotient want it.
proof fn lemma_dividend(ca: u64, len: u32, sh: u32)
    requires
        1 <= len <= 53,
        sh == 126 - len,
        pow2((len - 1) as nat) <= ca < pow2(len as nat),
    ensures
        0x2000_0000_0000_0000_0000_0000_0000_0000 <= ca * pow2(sh as nat)
            < 0x4000_0000_0000_0000_0000_0000_0000_0000,
{
    let f = pow2(sh as nat);
    lemma_pow2_pos(sh as nat);
    lemma2_to64();
    lemma2_to64_rest();
    lemma_pow2_adds((len - 1) as nat, sh as nat);
    lemma_pow2_adds(len as nat, sh as nat);
    lemma_pow2_adds(64, 61);
    lemma_pow2_adds(64, 62);
    assert(ca * f >= pow2((len - 1) as nat) * f) by (nonlinear_arith)
        requires
            ca >= pow2((len - 1) as nat),
    ;
    assert(ca * f < pow2(len as nat) * f) by (nonlinear_arith)
        requires
            ca < pow2(len as nat),
            f > 0,
    ;
}

/// Such a dividend gives a quotient of at least 2^72.
proof fn lemma_large_quotient(n: nat, d: nat)
    requires
        0x2000_0000_0000_0000_0000_0000_0000_0000 <= n
            < 0x4000_0000_0000_0000_0000_0000_0000_0000,
        0 < d < 2 * rounding::BINADE,
    ensures
        4 * rounding::BINADE <= n / d < 0x4000_0000_0000_0000_0000_0000_0000_0000,
{
    lemma_fundamental_div_mod(n as int, d as int);
    let q = n / d;
    if q < 0x40_0000_0000_0000 {
        assert(d * q + d <= 0x20_0000_0000_0000 * 0x40_0000_0000_0000) by (nonlinear_arith)
            requires
                q + 1 <= 0x40_0000_0000_0000,
                0 < d < 0x20_0000_0000_0000,
        ;
    }
    assert(q <= n) by (nonlinear_arith)
        requires
            n == d * q + n % d,
            n % d >= 0,
            d >= 1,
            q >= 0,
    ;
}

/// The quotient of two magnitudes, with the dividend shifted.
proof fn lemma_quotient_scale(ca: nat, ka: nat, cb: nat, kb: nat, sh: nat)
    requires
        cb > 0,
    ensures
        rounding::nearest((ca * pow2(ka)) * one_in_steps(), cb * pow2(kb)) == rounding::nearest(
            (ca * pow2(sh)) * pow2(ka + 1074),
            cb * pow2(sh + kb),
        ),
{
    let f = pow2(sh);
    lemma_pow2_pos(sh);
    lemma_pow2_pos(kb);
    lemma_pow2_adds(ka, 1074);
    lemma_pow2_adds(sh, kb);
    let u = pow2(ka);
    let v = pow2(1074);
    let w = pow2(kb);
    assert(cb * w > 0) by (nonlinear_arith)
        requires
            cb > 0,
            w > 0,
    ;
    rounding::lemma_nearest_scale((ca * u) * v, cb * w, f);
    assert(((ca * u) * v) * f == (ca * f) * (u * v)) by (nonlinear_arith);
    assert((cb * w) * f == cb * (f * w)) by (nonlinear_arith);
}

impl Double {
    /// `self + other`.
    pub fn plus(self, other: Double) -> (r: Double)
        ensures
            r == self.sum(other),
    {
        if self.is_nan() || other.is_nan() {
            return Double { bits: NAN };
        }
        if self.is_infinite() {
            if other.is_infinite() && self.is_negative() != other.is_negative() {
                return Double { bits: NAN };
            }
            return self;
        }
        if other.is_infinite() {
            return other;
        }
        let a = self.pattern();
        let b = other.pattern();
        proof {
            lemma_steps_order(a as nat, b as nat);
            lemma_steps_order(a as nat, 0);
            lemma_steps_order(b as nat, 0);
            rounding::lemma_nearest_exact(0, 1);
        }
        if self.is_negative() == other.is_negative() {
            if a >= b {
                Double::assemble(self.is_negative(), add_magnitudes(a, b))
            } else {
                Double::assemble(self.is_negative(), add_magnitudes(b, a))
            }
        } else if a == b {
            Double { bits: ZERO }
        } else if a > b {
            Double::assemble(self.is_negative(), subtract_magnitudes(a, b))
        } else {
            Double::assemble(other.is_negative(), subtract_magnitudes(b, a))
        }
    }

    /// `self - other`.
    pub fn minus(self, other: Double) -> (r: Double)
        ensures
            r == self.difference(other),
    {
        self.plus(other.negated())
    }

    /// `self * other`.
    pub fn times(self, other: Double) -> (r: Double)
        ensures
            r == self.product(other),
    {
        let negative = self.is_negative() != other.is_negative();
        if self.is_nan() || other.is_nan() {
            return Double { bits: NAN };
        }
        if self.is_infinite() || other.is_infinite() {
            if self.pattern() == 0 || other.pattern() == 0 {
                return Double { bits: NAN };
            }
            return Double::assemble(negative, rounding::INFINITE);
        }
        Double::assemble(negative, multiply_magnitudes(self.pattern(), other.pattern()))
    }

    /// `self / other`.
    pub fn over(self, other: Double) -> (r: Double)
        ensures
            r == self.quotient(other),
    {
        let negative = self.is_negative() != other.is_negative();
        if self.is_nan() || other.is_nan() {
            return Double { bits: NAN };
        }
        if self.is_infinite() {
            if other.is_infinite() {
                return Double { bits: NAN };
            }
            return Double::assemble(negative, rounding::INFINITE);
        }
        if other.is_infinite() {
            return Double::assemble(negative, 0);
        }
        if other.pattern() == 0 {
            if self.pattern() == 0 {
                return Double { bits: NAN };
            }
            return Double::assemble(negative, rounding::INFINITE);
        }
        Double::assemble(negative, divide_magnitudes(self.pattern(), other.pattern()))
    }

    /// `n`, rounded.
    pub fn from_count(n: u64) -> (r: Double)
        ensures
            r == whole(n as nat),
    {
        Double::assemble(false, rounding::round_scaled(n as u128, 1074))
    }

    /// The fraction `n / d`.
    pub fn fraction(n: u64, d: u64) -> (r: Double)
        ensures
            r == ratio(n as nat, d as nat),
    {
        Double::from_count(n).over(Double::from_count(d))
    }

    /// The integer part, saturated to the range of `u64`.
    pub fn to_integer(self) -> (r: u64)
        ensures
            r == self.integer_part(),
    {
        if self.is_nan() || self.is_negative() {
            return 0;
        }
        let m = self.pattern();
        if m >= rounding::INFINITE {
            proof {
                lemma_infinite_integer();
            }
            return u64::MAX;
        }
        let (c, k) = split(m);
        proof {
            lemma_pow2_pos(1074);
        }
        if k >= 1074 {
            let sh: u32 = k - 1074;
            proof {
                lemma_pow2_adds(sh as nat, 1074);
                let f = pow2(sh as nat);
                assert(c * (f * pow2(1074)) == (c * f) * pow2(1074)) by (nonlinear_arith);
                lemma_div_by_multiple(c * f, pow2(1074) as int);
            }
            if sh > 11 {
                proof {
                    lemma2_to64();
                    if sh > 12 {
                        lemma_pow2_strictly_increases(12, sh as nat);
                    }
                    let f = pow2(sh as nat);
                    assert(c * f >= 0x10_0000_0000_0000 * 0x1000) by (nonlinear_arith)
                        requires
                            c >= 0x10_0000_0000_0000,
                            f >= 0x1000,
                    ;
                }
                return u64::MAX;
            }
            let f = rounding::two_to(sh);
            proof {
                lemma2_to64();
                if sh < 11 {
                    lemma_pow2_strictly_increases(sh as nat, 11);
                }
                assert(0 <= c * f <= u64::MAX) by (nonlinear_arith)
                    requires
                        0 <= c < 0x20_0000_0000_0000,
                        0 <= f <= 0x800,
                ;
            }
            (c as u128 * f) as u64
        } else {
            let sh: u32 = 1074 - k;
            proof {
                lemma_pow2_adds(sh as nat, k as nat);
                lemma_pow2_pos(sh as nat);
                lemma_pow2_pos(k as nat);
                let w = pow2(k as nat);
                let g = pow2(sh as nat);
                assert(c * w == w * c) by (nonlinear_arith);
                assert(g * w == w * g) by (nonlinear_arith);
                lemma_div_multiples_cancel(c as int, g as int, w as int);
            }
            if sh > 53 {
                proof {
                    lemma2_to64_rest();
                    lemma_pow2_strictly_increases(53, sh as nat);
                    lemma_basic_div(c as int, pow2(sh as nat) as int);
                }
                return 0;
            }
            let g = rounding::two_to(sh);
            proof {
                lemma_div_is_ordered_by_denominator(c as int, 1, g as int);
            }
            (c as u128 / g) as u64
        }
    }
}

/// A common factor of a fraction cancels.
proof fn lemma_div_multiples_cancel(n: int, d: int, w: int)
    requires
        w > 0,
        d > 0,
        n >= 0,
    ensures
        (w * n) / (w * d) == n / d,
{
    lemma_fundamental_div_mod(n, d);
    let q = n / d;
    let r = n % d;
    assert(w * n == q * (w * d) + w * r) by (nonlinear_arith)
        requires
            n == d * q + r,
    ;
    assert(0 <= w * r < w * d) by (nonlinear_arith)
        requires
            0 <= r < d,
            w > 0,
    ;
    lemma_fundamental_div_mod_converse(w * n, w * d, q, w * r);
}

/// The pattern of infinity stands for more than any `u64`.
proof fn lemma_infinite_integer()
    ensures
        rounding::steps(rounding::INFINITE as nat) / one_in_steps() > u64::MAX,
{
    rounding::lemma_steps_at(rounding::BINADE as nat, 2046);
    lemma_pow2_adds(972, 1074);
    lemma_pow2_pos(1074);
    lemma2_to64();
    lemma_pow2_strictly_increases(64, 972);
    let c = rounding::BINADE as int;
    let f = pow2(972) as int;
    assert(c * (f * pow2(1074)) == (c * f) * pow2(1074)) by (nonlinear_arith);
    lemma_div_by_multiple(c * f, pow2(1074) as int);
    assert(c * f > u64::MAX) by (nonlinear_arith)
        requires
            c >= 1,
            f > u64::MAX,
    ;
}

} // verus!
