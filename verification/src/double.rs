//! Binary64 floating point values, held as their 64 bits.
//!
//! Rates and thresholds are compared, divided and multiplied exactly as IEEE 754 prescribes:
//! each operation gives the double nearest to the exact result, ties to the even significand.
//! A finite double is a whole number of units of 2^-1074, the least positive double, so that
//! all of this can be said over the integers.

use vstd::arithmetic::div_mod::*;
use vstd::arithmetic::mul::*;
use vstd::arithmetic::power2::*;
use vstd::prelude::*;

verus! {

/// The bit that is set in negative values.
pub const SIGN: u64 = 0x8000_0000_0000_0000;

/// The bits of positive infinity. Larger magnitudes are not numbers.
pub const INFINITE: u64 = 0x7ff0_0000_0000_0000;

/// How many doubles lie between two powers of two: 2^52.
pub const STEPS: u64 = 0x0010_0000_0000_0000;

/// The bits of the quiet value that is not a number.
pub const NOT_A_NUMBER: u64 = 0x7ff8_0000_0000_0000;

/// The bits of 2^129, above every 128-bit integer.
pub const COUNTS_END: u64 = 0x4800_0000_0000_0000;

/// The bits of 8.
pub const EIGHT: u64 = 0x4020_0000_0000_0000;

/// A binary64 floating point value.
#[derive(Clone, Copy, Debug, PartialEq, Eq, Structural)]
pub struct Double {
    pub bits: u64,
}

/// The quotient of `num` by `den` to the nearest integer, ties to the even one.
pub open spec fn half_even(num: nat, den: nat) -> nat {
    let floor = num / den;
    let rest = num % den;
    if 2 * rest < den || (2 * rest == den && floor % 2 == 0) {
        floor
    } else {
        floor + 1
    }
}

/// Whether the doubles next to `num / den` units are `2^k` units apart: the least `k` with
/// which the significand stays under 2^53.
pub open spec fn is_spacing(num: nat, den: nat, k: nat) -> bool {
    &&& num < pow2(53 + k) * den
    &&& k > 0 ==> pow2(52 + k) * den <= num
}

/// The exponent of the spacing of the doubles next to `num / den` units.
pub open spec fn spacing(num: nat, den: nat) -> nat {
    choose|k: nat| is_spacing(num, den, k)
}

/// The bits of the nonnegative double nearest to `num / den` units.
pub open spec fn rounded(num: nat, den: nat) -> nat {
    let k = spacing(num, den);
    let bits = k * STEPS as nat + half_even(num, den * pow2(k));
    if bits < INFINITE {
        bits
    } else {
        INFINITE as nat
    }
}

/// The number of units in the finite nonnegative double with the given bits.
pub open spec fn units_of(bits: nat) -> nat {
    let exponent = bits / (STEPS as nat);
    let fraction = bits % (STEPS as nat);
    if exponent == 0 {
        fraction
    } else {
        (STEPS + fraction) as nat * pow2((exponent - 1) as nat)
    }
}

/// The double nearest to a whole number.
pub open spec fn double_of(n: nat) -> Double {
    Double { bits: rounded(n * pow2(1074), 1) as u64 }
}

/// The double nearest to the quotient of the finite `a` by the finite `b`, neither negative.
pub open spec fn quotient_of(a: Double, b: Double) -> Double {
    Double {
        bits: rounded(units_of(a.bits as nat) * pow2(1074), units_of(b.bits as nat)) as u64,
    }
}

/// The double nearest to the quotient of the doubles nearest to `a` and `b`.
pub open spec fn ratio_of(a: nat, b: nat) -> Double {
    quotient_of(double_of(a), double_of(b))
}

/// The double nearest to the product of `a` and `b`.
pub open spec fn product_of(a: Double, b: Double) -> Double {
    let sign: u64 = if a.negative() != b.negative() { SIGN } else { 0 };
    if a.is_nan() || b.is_nan() || (a.is_infinite() && b.magnitude() == 0) || (b.is_infinite()
        && a.magnitude() == 0) {
        Double { bits: NOT_A_NUMBER }
    } else if a.is_infinite() || b.is_infinite() {
        Double { bits: (sign + INFINITE) as u64 }
    } else {
        Double {
            bits: (sign + rounded(
                units_of(a.magnitude()) * units_of(b.magnitude()),
                pow2(1074),
            )) as u64,
        }
    }
}

impl Double {
    /// Whether the sign bit is set.
    pub open spec fn negative(self) -> bool {
        self.bits >= SIGN
    }

    /// The bits without the sign.
    pub open spec fn magnitude(self) -> nat {
        if self.negative() {
            (self.bits - SIGN) as nat
        } else {
            self.bits as nat
        }
    }

    /// Whether this is not a number.
    pub open spec fn is_nan(self) -> bool {
        self.magnitude() > INFINITE
    }

    /// Whether this is positive or negative infinity.
    pub open spec fn is_infinite(self) -> bool {
        self.magnitude() == INFINITE
    }

    /// Whether this is neither infinite nor not a number.
    pub open spec fn is_finite(self) -> bool {
        self.magnitude() < INFINITE
    }

    /// Whether this is zero, or a number from 1 up to 2^129.
    pub open spec fn is_count(self) -> bool {
        self.bits == 0 || 1023 * STEPS <= self.bits < COUNTS_END
    }

    /// The value of a finite double, in units of 2^-1074.
    pub open spec fn units(self) -> int {
        if self.negative() {
            -(units_of(self.magnitude()) as int)
        } else {
            units_of(self.magnitude()) as int
        }
    }

    /// The place of a number among all numbers; the two zeros share one.
    pub open spec fn rank(self) -> int {
        if self.negative() {
            -(self.magnitude() as int)
        } else {
            self.magnitude() as int
        }
    }

    /// Whether `self < other`. Nothing is less than, or more than, what is not a number.
    pub open spec fn less(self, other: Double) -> bool {
        !self.is_nan() && !other.is_nan() && self.rank() < other.rank()
    }

    /// Whether `self >= other`.
    pub open spec fn no_less(self, other: Double) -> bool {
        !self.is_nan() && !other.is_nan() && self.rank() >= other.rank()
    }

    /// The double with the given bits.
    pub fn from_bits(bits: u64) -> (d: Double)
        ensures
            d.bits == bits,
    {
        Double { bits }
    }

    /// The bits of this double.
    pub fn to_bits(self) -> (bits: u64)
        ensures
            bits == self.bits,
    {
        self.bits
    }

    fn is_nan_value(self) -> (b: bool)
        ensures
            b == self.is_nan(),
    {
        self.magnitude_bits() > INFINITE
    }

    fn magnitude_bits(self) -> (m: u64)
        ensures
            m == self.magnitude(),
            m < SIGN,
    {
        if self.bits >= SIGN {
            self.bits - SIGN
        } else {
            self.bits
        }
    }

    fn rank_value(self) -> (r: i64)
        ensures
            r == self.rank(),
    {
        let m: i64 = self.magnitude_bits() as i64;
        if self.bits >= SIGN {
            -m
        } else {
            m
        }
    }

    /// Whether `self < other`.
    pub fn below(self, other: Double) -> (b: bool)
        ensures
            b == self.less(other),
    {
        !self.is_nan_value() && !other.is_nan_value() && self.rank_value() < other.rank_value()
    }

    /// Whether `self >= other`.
    pub fn at_least(self, other: Double) -> (b: bool)
        ensures
            b == self.no_less(other),
    {
        !self.is_nan_value() && !other.is_nan_value() && self.rank_value() >= other.rank_value()
    }

    /// The double nearest to `n`.
    pub fn from_integer(n: u128) -> (d: Double)
        ensures
            d == double_of(n as nat),
            d.is_count(),
            n > 0 ==> d.bits > 0,
    {
        if n == 0 {
            proof {
                lemma_rounded_zero(1);
            }
            return Double { bits: 0 };
        }
        let (significand, k) = integer_parts(n);
        assert(1022 * STEPS <= k * STEPS <= 1150 * STEPS) by (nonlinear_arith)
            requires
                1022 <= k <= 1150,
        ;
        Double { bits: k as u64 * STEPS + significand }
    }

    /// Eight times a count, which is exact.
    pub fn eightfold(self) -> (d: Double)
        requires
            self.is_count(),
        ensures
            d == product_of(self, (Double { bits: EIGHT })),
            d.bits == 0 || 1023 * STEPS <= d.bits < 1200 * STEPS,
    {
        if self.bits == 0 {
            proof {
                lemma_pow2_pos(1074);
                lemma_rounded_zero(pow2(1074));
                lemma_small_mod(0, STEPS as nat);
                assert(units_of(0) == 0);
                assert(0 * units_of(EIGHT as nat) == 0);
            }
            return Double { bits: 0 };
        }
        proof {
            lemma_eightfold(self);
        }
        Double { bits: self.bits + 3 * STEPS }
    }

    /// The double nearest to the quotient of two counts.
    pub fn over(self, divisor: Double) -> (d: Double)
        requires
            self.bits == 0 || 1023 * STEPS <= self.bits < 1200 * STEPS,
            divisor.is_count(),
            divisor.bits > 0,
        ensures
            d == quotient_of(self, divisor),
    {
        let (mb, kb) = magnitude_parts(divisor.bits);
        if self.bits == 0 {
            proof {
                lemma_small_mod(0, STEPS as nat);
                assert(0 * pow2(1074) == 0);
                lemma_pow2_pos(kb as nat);
                assert(mb as nat * pow2(kb as nat) > 0) by (nonlinear_arith)
                    requires
                        mb > 0,
                        pow2(kb as nat) > 0,
                ;
                lemma_rounded_zero(mb as nat * pow2(kb as nat));
            }
            return Double { bits: 0 };
        }
        let (ma, ka) = magnitude_parts(self.bits);
        // ma / mb lies between 1/2 and 2: with 54 more bits it has 54 or 55.
        let num: u128 = ma as u128 * 0x40_0000_0000_0000;
        let shift: u32 = ka + 1020 - kb;
        let wide: bool = num >= mb as u128 * 0x40_0000_0000_0000;
        let by: u32 = if wide { 2 } else { 1 };
        let den: u128 = if wide { mb as u128 * 4 } else { mb as u128 * 2 };
        let significand: u128 = divide_half_even(num, den);
        let k: u32 = shift + by;
        proof {
            lemma_ratio(ma as nat, ka as nat, mb as nat, kb as nat, by as nat);
        }
        assert(k * STEPS <= 1400 * STEPS) by (nonlinear_arith)
            requires
                k <= 1400,
        ;
        Double { bits: k as u64 * STEPS + significand as u64 }
    }

    /// The double nearest to the quotient of the doubles nearest to `a` and `b`.
    pub fn ratio(a: u128, b: u128) -> (d: Double)
        requires
            b > 0,
        ensures
            d == ratio_of(a as nat, b as nat),
    {
        Double::from_integer(a).over(Double::from_integer(b))
    }

    /// The double nearest to the product of `self` and `other`.
    pub fn times(self, other: Double) -> (d: Double)
        ensures
            d == product_of(self, other),
    {
        let a: u64 = self.magnitude_bits();
        let b: u64 = other.magnitude_bits();
        let sign: u64 = if (self.bits >= SIGN) != (other.bits >= SIGN) { SIGN } else { 0 };
        if a > INFINITE || b > INFINITE || (a == INFINITE && b == 0) || (b == INFINITE && a
            == 0) {
            return Double { bits: NOT_A_NUMBER };
        }
        if a == INFINITE || b == INFINITE {
            return Double { bits: sign + INFINITE };
        }
        let (ma, ka) = magnitude_parts(a);
        let (mb, kb) = magnitude_parts(b);
        assert(ma * mb < 0x20_0000_0000_0000 * 0x20_0000_0000_0000) by (nonlinear_arith)
            requires
                ma < 0x20_0000_0000_0000,
                mb < 0x20_0000_0000_0000,
        ;
        let n: u128 = ma as u128 * mb as u128;
        let bits: u64 = round_scaled(n, ka + kb);
        proof {
            let (a2, b2) = (pow2(ka as nat), pow2(kb as nat));
            lemma_pow2_adds(ka as nat, kb as nat);
            assert((ma * a2) * (mb * b2) == (ma * mb) * (a2 * b2)) by (nonlinear_arith);
        }
        Double { bits: sign + bits }
    }
}

/// The number of bits of `n` up to its highest one.
fn bit_length(n: u128) -> (len: u32)
    ensures
        len <= 128,
        n < pow2(len as nat),
        n > 0 ==> len > 0 && pow2((len - 1) as nat) <= n,
        n == 0 ==> len == 0,
{
    let mut len: u32 = 0;
    let mut rest: u128 = n;
    proof {
        lemma2_to64();
        lemma_div_basics_2(n as int);
    }
    while rest > 0
        invariant
            len <= 128,
            rest == n as nat / pow2(len as nat),
            n > 0 && len > 0 ==> pow2((len - 1) as nat) <= n,
            n == 0 ==> len == 0,
        decreases rest,
    {
        proof {
            lemma_pow2_pos(len as nat);
            lemma_pow2_unfold(len as nat + 1);
            lemma_div_denominator(n as int, pow2(len as nat) as int, 2);
            assert(pow2(len as nat) * 2 == pow2(len as nat + 1)) by {
                lemma_mul_is_commutative(pow2(len as nat) as int, 2);
            }
            lemma_positive_quotient(n as nat, pow2(len as nat));
            if len == 128 {
                lemma_pow2_adds(64, 64);
                lemma2_to64_rest();
                assert(pow2(64) == 0x1_0000_0000_0000_0000);
                assert(pow2(128) > u128::MAX) by {
                    assert(0x1_0000_0000_0000_0000 * 0x1_0000_0000_0000_0000 > u128::MAX);
                }
            }
        }
        rest = rest / 2;
        len = len + 1;
    }
    proof {
        lemma_pow2_pos(len as nat);
        lemma_fundamental_div_mod(n as int, pow2(len as nat) as int);
        lemma_mod_bound(n as int, pow2(len as nat) as int);
        assert(pow2(len as nat) * 0 == 0);
    }
    len
}

/// `2^k`.
fn power(k: u32) -> (p: u128)
    requires
        k < 128,
    ensures
        p == pow2(k as nat),
{
    let mut p: u128 = 1;
    let mut i: u32 = 0;
    proof {
        lemma2_to64();
    }
    while i < k
        invariant
            i <= k < 128,
            p == pow2(i as nat),
        decreases k - i,
    {
        proof {
            lemma_pow2_unfold(i as nat + 1);
            if i + 1 < 127 {
                lemma_pow2_strictly_increases(i as nat + 1, 127);
            }
            lemma_pow2_127();
        }
        p = p * 2;
        i = i + 1;
    }
    p
}

/// The quotient of `num` by `den` to the nearest integer, ties to the even one.
fn divide_half_even(num: u128, den: u128) -> (q: u128)
    requires
        0 < den,
        den > 1 || num < u128::MAX,
    ensures
        q == half_even(num as nat, den as nat),
{
    let floor: u128 = num / den;
    let rest: u128 = num % den;
    proof {
        if den > 1 && num > 0 {
            lemma_div_decreases(num as int, den as int);
        } else {
            lemma_div_basics(num as int);
            lemma_div_basics(den as int);
        }
    }
    if rest < den - rest || (rest == den - rest && floor % 2 == 0) {
        floor
    } else {
        floor + 1
    }
}

/// The significand and the exponent of the double nearest to `n`.
fn integer_parts(n: u128) -> (parts: (u64, u32))
    requires
        n > 0,
    ensures
        STEPS <= parts.0 < 2 * STEPS,
        1022 <= parts.1 <= 1150,
        parts.1 * STEPS + parts.0 == rounded(n as nat * pow2(1074), 1),
{
    let len: u32 = bit_length(n);
    let k: u32 = 1021 + len;
    proof {
        lemma_pow2_adds(len as nat, 1074);
        lemma_pow2_adds((len - 1) as nat, 1074);
        lemma_pow2_pos(1074);
        assert(n * pow2(1074) < pow2(len as nat) * pow2(1074)) by (nonlinear_arith)
            requires
                n < pow2(len as nat),
                pow2(1074) > 0,
        ;
        assert(pow2((len - 1) as nat) * pow2(1074) <= n * pow2(1074)) by (nonlinear_arith)
            requires
                pow2((len - 1) as nat) <= n,
        ;
        lemma_spacing(n as nat * pow2(1074), 1, k as nat);
        lemma_pow2_52();
    }
    if len <= 53 {
        let scale: u128 = power(53 - len);
        proof {
            lemma_pow2_adds(len as nat, (53 - len) as nat);
            lemma_pow2_adds((len - 1) as nat, (53 - len) as nat);
            lemma_pow2_adds((53 - len) as nat, k as nat);
            lemma_pow2_pos((53 - len) as nat);
            lemma_pow2_pos(k as nat);
            assert(n * scale < pow2(len as nat) * scale) by (nonlinear_arith)
                requires
                    n < pow2(len as nat),
                    scale > 0,
            ;
            assert(pow2((len - 1) as nat) * scale <= n * scale) by (nonlinear_arith)
                requires
                    pow2((len - 1) as nat) <= n,
            ;
            assert(n * pow2(1074) == (n * scale) * pow2(k as nat)) by (nonlinear_arith)
                requires
                    pow2(1074) == scale * pow2(k as nat),
            ;
            lemma_half_even_exact((n * scale) as nat, pow2(k as nat));
        }
        let significand: u128 = n * scale;
        assert(k * STEPS <= 1074 * STEPS) by (nonlinear_arith)
            requires
                k <= 1074,
        ;
        (significand as u64, k)
    } else {
        let den: u128 = power(len - 53);
        proof {
            lemma_pow2_adds((len - 53) as nat, 1074);
            lemma_pow2_pos((len - 54) as nat);
            lemma_pow2_unfold((len - 53) as nat);
            lemma_half_even_scale(n as nat, pow2((len - 53) as nat), pow2(1074));
            lemma_pow2_adds((len - 53) as nat, 53);
            lemma_pow2_adds((len - 53) as nat, 52);
            lemma_half_even_bounds(n as nat, den as nat, pow2(52), pow2(53));
        }
        let significand: u128 = divide_half_even(n, den);
        assert(k * STEPS <= 1149 * STEPS) by (nonlinear_arith)
            requires
                k <= 1149,
        ;
        if significand == 2 * STEPS as u128 {
            assert((k + 1) * STEPS + STEPS == k * STEPS + 2 * STEPS) by (nonlinear_arith);
            (STEPS, k + 1)
        } else {
            (significand as u64, k)
        }
    }
}

/// The significand and the exponent of the double with the given bits.
fn magnitude_parts(bits: u64) -> (parts: (u64, u32))
    requires
        bits < INFINITE,
    ensures
        parts.0 < 2 * STEPS,
        parts.1 <= 2045,
        bits >= STEPS ==> parts.0 >= STEPS && parts.1 == bits / STEPS - 1,
        units_of(bits as nat) == parts.0 * pow2(parts.1 as nat),
{
    let exponent: u64 = bits / STEPS;
    let fraction: u64 = bits % STEPS;
    if exponent == 0 {
        proof {
            lemma2_to64();
        }
        (fraction, 0)
    } else {
        (STEPS + fraction, (exponent - 1) as u32)
    }
}

/// The bits of the double nearest to `n * 2^(e - 1074)` units.
fn round_scaled(n: u128, e: u32) -> (bits: u64)
    requires
        n < 4 * STEPS * STEPS,
        e <= 4090,
    ensures
        bits == rounded(n as nat * pow2(e as nat), pow2(1074)),
        bits <= INFINITE,
{
    if n == 0 {
        proof {
            lemma_pow2_pos(1074);
            lemma_rounded_zero(pow2(1074));
        }
        return 0;
    }
    let len: u32 = bit_length(n);
    let k: u32 = if e + len > 1127 { e + len - 1127 } else { 0 };
    proof {
        lemma_round_scaled_spacing(n as nat, e as nat, len as nat, k as nat);
        lemma_length_bound(n as nat, len as nat);
    }
    let significand: u128 = if e >= 1074 + k {
        let scale: u128 = power(e - 1074 - k);
        proof {
            lemma_pow2_adds((e - 1074 - k) as nat, len as nat);
            lemma_pow2_52();
            if e - 1074 - k + len < 53 {
                lemma_pow2_strictly_increases((e - 1074 - k + len) as nat, 53);
            }
            lemma_pow2_pos((e - 1074 - k) as nat);
            assert(n * scale < pow2(len as nat) * scale) by (nonlinear_arith)
                requires
                    n < pow2(len as nat),
                    scale > 0,
            ;
            lemma_pow2_adds((e - 1074 - k) as nat, (1074 + k) as nat);
            lemma_pow2_adds(1074, k as nat);
            lemma_pow2_pos((1074 + k) as nat);
            assert(n * pow2(e as nat) == (n * scale) * pow2((1074 + k) as nat)) by (nonlinear_arith)
                requires
                    pow2(e as nat) == scale * pow2((1074 + k) as nat),
            ;
            lemma_half_even_exact((n * scale) as nat, pow2((1074 + k) as nat));
            assert(pow2(len as nat) * scale <= 2 * STEPS) by {
                lemma_mul_is_commutative(pow2(len as nat) as int, scale as int);
            }
        }
        n * scale
    } else {
        let down: u32 = 1074 + k - e;
        proof {
            lemma_pow2_adds(down as nat, e as nat);
            lemma_pow2_adds(1074, k as nat);
            lemma_pow2_pos(e as nat);
            lemma_pow2_pos(down as nat);
            lemma_half_even_scale(n as nat, pow2(down as nat), pow2(e as nat));
            lemma_pow2_52();
            lemma_pow2_adds(down as nat, 53);
            if len < down + 53 {
                lemma_pow2_strictly_increases(len as nat, (down + 53) as nat);
            }
            lemma_half_even_bounds(n as nat, pow2(down as nat), 0, pow2(53));
        }
        if down >= 107 {
            proof {
                lemma_pow2_strictly_increases(106, down as nat);
                if down > 107 {
                    lemma_pow2_strictly_increases(107, down as nat);
                }
                lemma_pow2_unfold(107);
                lemma_pow2_127();
                lemma_small_div(n as int, pow2(down as nat) as int);
                lemma_small_mod(n as nat, pow2(down as nat));
            }
            0
        } else {
            let den: u128 = power(down);
            divide_half_even(n, den)
        }
    };
    assert(significand <= 2 * STEPS);
    assert(k * STEPS <= 3070 * STEPS) by (nonlinear_arith)
        requires
            k <= 3070,
    ;
    let bits: u64 = k as u64 * STEPS + significand as u64;
    if bits < INFINITE {
        bits
    } else {
        INFINITE
    }
}


// Arithmetic of powers of two and of rounding.

proof fn lemma_pow2_52()
    ensures
        pow2(52) == STEPS,
        pow2(53) == 2 * STEPS,
        pow2(54) == 4 * STEPS,
{
    lemma2_to64_rest();
}

proof fn lemma_pow2_127()
    ensures
        pow2(127) == 0x8000_0000_0000_0000_0000_0000_0000_0000,
        pow2(128) == 0x1_0000_0000_0000_0000_0000_0000_0000_0000,
        pow2(106) == 4 * STEPS * STEPS,
{
    lemma2_to64_rest();
    lemma_pow2_adds(64, 64);
    lemma_pow2_adds(64, 63);
    lemma_pow2_adds(53, 53);
    assert(0x1_0000_0000_0000_0000int * 0x8000_0000_0000_0000int
        == 0x8000_0000_0000_0000_0000_0000_0000_0000int);
}

proof fn lemma_positive_quotient(n: nat, d: nat)
    requires
        d > 0,
        n / d > 0,
    ensures
        d <= n,
{
    if n < d {
        lemma_small_div(n as int, d as int);
    }
}

proof fn lemma_small_div(n: int, d: int)
    requires
        0 <= n < d,
    ensures
        n / d == 0,
{
    lemma_basic_div(n, d);
}

/// A number of `len` bits under 2^106 has at most 106 of them.
proof fn lemma_length_bound(n: nat, len: nat)
    requires
        0 < len,
        pow2((len - 1) as nat) <= n < 4 * STEPS * STEPS,
    ensures
        len <= 106,
{
    lemma_pow2_127();
    if len > 106 {
        if len > 107 {
            lemma_pow2_strictly_increases(106, (len - 1) as nat);
        }
    }
}

/// There is only one spacing.
proof fn lemma_spacing(num: nat, den: nat, k: nat)
    requires
        den > 0,
        is_spacing(num, den, k),
    ensures
        spacing(num, den) == k,
{
    let s = spacing(num, den);
    assert(is_spacing(num, den, s));
    if s != k {
        let (low, high) = if s < k { (s, k) } else { (k, s) };
        if 53 + low < 52 + high {
            lemma_pow2_strictly_increases(53 + low, 52 + high);
        }
        assert(pow2(53 + low) * den <= pow2(52 + high) * den) by (nonlinear_arith)
            requires
                pow2(53 + low) <= pow2(52 + high),
        ;
    }
}

proof fn lemma_rounded_zero(den: nat)
    requires
        den > 0,
    ensures
        rounded(0, den) == 0,
{
    lemma_pow2_pos(53);
    lemma_pow2_pos(0);
    lemma2_to64();
    assert(pow2(53) * den > 0) by (nonlinear_arith)
        requires
            pow2(53) > 0,
            den > 0,
    ;
    lemma_spacing(0, den, 0);
    assert(den * pow2(0) == den);
    lemma_small_div(0, den as int);
    lemma_small_mod(0, den);
}

proof fn lemma_half_even_exact(q: nat, den: nat)
    requires
        den > 0,
    ensures
        half_even(q * den, den) == q,
{
    lemma_div_multiples_vanish(q as int, den as int);
    lemma_mod_multiples_basic(q as int, den as int);
    lemma_mul_is_commutative(q as int, den as int);
}

/// Rounding depends on the quotient alone.
proof fn lemma_half_even_scale(num: nat, den: nat, by: nat)
    requires
        den > 0,
        by > 0,
    ensures
        half_even(num * by, den * by) == half_even(num, den),
{
    lemma_truncate_middle(num as int, by as int, den as int);
    assert(by * den > 0) by (nonlinear_arith)
        requires
            by > 0,
            den > 0,
    ;
    lemma_mul_is_commutative(num as int, by as int);
    lemma_mul_is_commutative(den as int, by as int);
    lemma_div_denominator(by as int * num as int, by as int, den as int);
    lemma_div_multiples_vanish(num as int, by as int);
    let rest = (num % den) as int;
    assert((num * by) % (den * by) == by * rest);
    assert(2 * (by * rest) < by * den <==> 2 * rest < den) by (nonlinear_arith)
        requires
            by > 0,
    ;
    assert(2 * (by * rest) == by * den <==> 2 * rest == den) by (nonlinear_arith)
        requires
            by > 0,
    ;
}

proof fn lemma_half_even_bounds(num: nat, den: nat, low: nat, high: nat)
    requires
        den > 0,
        den * low <= num <= den * high,
    ensures
        low <= half_even(num, den) <= high,
{
    let floor = num / den;
    lemma_fundamental_div_mod(num as int, den as int);
    lemma_mod_bound(num as int, den as int);
    assert(low <= floor) by (nonlinear_arith)
        requires
            den * low <= num,
            num == den * floor + num % den,
            num % den < den,
            den > 0,
    ;
    assert(floor < high || (floor == high && num % den == 0)) by (nonlinear_arith)
        requires
            num <= den * high,
            num == den * floor + num % den,
            0 <= num % den,
            den > 0,
    ;
}

/// The double of a significand and an exponent has that many units.
proof fn lemma_units_of_parts(significand: nat, k: nat)
    requires
        STEPS <= significand < 2 * STEPS,
    ensures
        units_of((k * STEPS + significand) as nat) == significand * pow2(k),
{
    let bits = k * STEPS + significand;
    assert(bits == (k + 1) * STEPS + (significand - STEPS)) by (nonlinear_arith)
        requires
            bits == k * STEPS + significand,
    ;
    lemma_fundamental_div_mod_converse(bits, STEPS as int, k as int + 1, significand - STEPS);
}

proof fn lemma_eightfold(d: Double)
    requires
        d.is_count(),
        d.bits > 0,
    ensures
        product_of(d, (Double { bits: EIGHT })) == (Double { bits: (d.bits + 3 * STEPS) as u64 }),
        d.bits + 3 * STEPS < 1200 * STEPS,
{
    let exponent = d.bits as nat / STEPS as nat;
    let k = (exponent - 1) as nat;
    let m = (STEPS + d.bits as nat % STEPS as nat) as nat;
    lemma_fundamental_div_mod(d.bits as int, STEPS as int);
    let bottom = pow2(1074);
    let top = (m * pow2(k)) * (STEPS * pow2(1025)) as nat;
    lemma_pow2_52();
    assert(units_of(EIGHT as nat) == STEPS * pow2(1025)) by {
        lemma_units_of_parts(STEPS as nat, 1025);
    }
    lemma_pow2_adds(52, 1025);
    lemma_pow2_adds(1074, 3);
    lemma_pow2_adds(k, 3);
    lemma_pow2_pos(k + 3);
    lemma_pow2_pos(1074);
    let p = pow2(k + 3);
    assert(top == m * (p * bottom)) by (nonlinear_arith)
        requires
            top == (m * pow2(k)) * (STEPS * pow2(1025)),
            STEPS * pow2(1025) == bottom * pow2(3),
            p == pow2(k) * pow2(3),
    ;
    lemma_pow2_adds(53, k + 3);
    lemma_pow2_adds(52, k + 3);
    assert(p * bottom > 0) by (nonlinear_arith)
        requires
            p > 0,
            bottom > 0,
    ;
    assert(m * (p * bottom) < (2 * STEPS * p) * bottom) by (nonlinear_arith)
        requires
            m < 2 * STEPS,
            p * bottom > 0,
    ;
    assert((STEPS * p) * bottom <= m * (p * bottom)) by (nonlinear_arith)
        requires
            STEPS <= m,
            p * bottom > 0,
    ;
    lemma_spacing(top, bottom, k + 3);
    assert(bottom * p == p * bottom) by {
        lemma_mul_is_commutative(bottom as int, p as int);
    }
    lemma_half_even_exact(m as nat, bottom * p);
    assert((k + 3) * STEPS + m == d.bits + 3 * STEPS) by (nonlinear_arith)
        requires
            k == exponent - 1,
            m == STEPS + d.bits % STEPS,
            d.bits == STEPS * exponent + d.bits % STEPS,
    ;
}

proof fn lemma_round_scaled_spacing(n: nat, e: nat, len: nat, k: nat)
    requires
        0 < len,
        pow2((len - 1) as nat) <= n < pow2(len),
        k == if e + len > 1127 { (e + len - 1127) as nat } else { 0 },
    ensures
        spacing(n * pow2(e), pow2(1074)) == k,
{
    lemma_pow2_adds(len, e);
    lemma_pow2_adds((len - 1) as nat, e);
    lemma_pow2_adds(53 + k, 1074);
    lemma_pow2_adds(52 + k, 1074);
    lemma_pow2_pos(e);
    lemma_pow2_pos(1074);
    if len + e < 53 + k + 1074 {
        lemma_pow2_strictly_increases(len + e, 53 + k + 1074);
    }
    assert(n * pow2(e) < pow2(len) * pow2(e)) by (nonlinear_arith)
        requires
            n < pow2(len),
            pow2(e) > 0,
    ;
    assert(pow2((len - 1) as nat) * pow2(e) <= n * pow2(e)) by (nonlinear_arith)
        requires
            pow2((len - 1) as nat) <= n,
    ;
    lemma_spacing(n * pow2(e), pow2(1074), k);
}

/// The quotient of two doubles from their significands and exponents.
proof fn lemma_ratio(ma: nat, ka: nat, mb: nat, kb: nat, by: nat)
    requires
        STEPS <= ma < 2 * STEPS,
        STEPS <= mb < 2 * STEPS,
        ka + 1020 >= kb,
        by == 1 || by == 2,
        (by == 2) == (ma * (4 * STEPS) >= mb * (4 * STEPS)),
    ensures
        ({
            let num = (ma * (4 * STEPS)) as nat;
            let den = if by == 2 { mb * 4 } else { mb * 2 };
            let k = (ka + 1020 - kb + by) as nat;
            &&& spacing((ma * pow2(ka)) * pow2(1074), mb * pow2(kb)) == k
            &&& half_even((ma * pow2(ka)) * pow2(1074), (mb * pow2(kb)) * pow2(k)) == half_even(
                num,
                den,
            )
            &&& half_even(num, den) <= 2 * STEPS
        }),
{
    let shift = (ka + 1020 - kb) as nat;
    let num = (ma * (4 * STEPS)) as nat;
    let den = if by == 2 { mb * 4 } else { mb * 2 };
    let k = shift + by;
    let common = pow2(shift) * pow2(kb);
    let top = (ma * pow2(ka)) * pow2(1074);
    let bottom = mb * pow2(kb);
    lemma_pow2_52();
    lemma2_to64();
    lemma_pow2_pos(shift);
    lemma_pow2_pos(kb);
    lemma_pow2_adds(ka, 1074);
    lemma_pow2_adds((shift + kb) as nat, 54);
    lemma_pow2_adds(shift, kb);
    assert(shift + kb + 54 == ka + 1074);
    assert(top == num * common) by (nonlinear_arith)
        requires
            top == (ma * pow2(ka)) * pow2(1074),
            pow2(ka) * pow2(1074) == common * (4 * STEPS),
            num == ma * (4 * STEPS),
    ;
    assert(common > 0) by (nonlinear_arith)
        requires
            common == pow2(shift) * pow2(kb),
            pow2(shift) > 0,
            pow2(kb) > 0,
    ;
    assert(bottom > 0) by (nonlinear_arith)
        requires
            bottom == mb * pow2(kb),
            mb > 0,
            pow2(kb) > 0,
    ;
    lemma_pow2_adds(53, by);
    lemma_pow2_adds(53 + by, shift);
    lemma_pow2_adds(52 + by, shift);
    lemma_pow2_adds(shift, by);
    lemma_pow2_unfold(55);
    let high = pow2(53 + by);
    let low = pow2(52 + by);
    if by == 2 {
        assert(num < high * mb) by (nonlinear_arith)
            requires
                num == ma * (4 * STEPS),
                high == 8 * STEPS,
                ma < 2 * STEPS,
                STEPS <= mb,
                STEPS > 0,
        ;
        assert(low * mb <= num) by (nonlinear_arith)
            requires
                num == ma * (4 * STEPS),
                low == 4 * STEPS,
                ma * (4 * STEPS) >= mb * (4 * STEPS),
        ;
    } else {
        assert(num < high * mb) by (nonlinear_arith)
            requires
                num == ma * (4 * STEPS),
                high == 4 * STEPS,
                ma * (4 * STEPS) < mb * (4 * STEPS),
        ;
        assert(low * mb <= num) by (nonlinear_arith)
            requires
                num == ma * (4 * STEPS),
                low == 2 * STEPS,
                STEPS <= ma,
                mb < 2 * STEPS,
                STEPS > 0,
        ;
    }
    assert(num * common < (high * mb) * common) by (nonlinear_arith)
        requires
            num < high * mb,
            common > 0,
    ;
    assert((low * mb) * common <= num * common) by (nonlinear_arith)
        requires
            low * mb <= num,
    ;
    assert((high * mb) * common == (high * pow2(shift)) * bottom) by (nonlinear_arith)
        requires
            common == pow2(shift) * pow2(kb),
            bottom == mb * pow2(kb),
    ;
    assert((low * mb) * common == (low * pow2(shift)) * bottom) by (nonlinear_arith)
        requires
            common == pow2(shift) * pow2(kb),
            bottom == mb * pow2(kb),
    ;
    assert(is_spacing(top, bottom, k));
    lemma_spacing(top, bottom, k);
    assert(bottom * pow2(k) == den * common) by (nonlinear_arith)
        requires
            bottom == mb * pow2(kb),
            pow2(k) == pow2(shift) * pow2(by),
            common == pow2(shift) * pow2(kb),
            den == mb * pow2(by),
    ;
    lemma_half_even_scale(num, den, common);
    assert(num <= den * pow2(53)) by (nonlinear_arith)
        requires
            num < high * mb,
            high == pow2(53) * pow2(by),
            den == mb * pow2(by),
    ;
    lemma_half_even_bounds(num, den, 0, pow2(53));
}


// Laws.

/// Finite doubles are ordered by their values.
pub proof fn order_is_by_value(a: Double, b: Double)
    requires
        a.is_finite(),
        b.is_finite(),
    ensures
        a.less(b) <==> a.units() < b.units(),
        a.no_less(b) <==> a.units() >= b.units(),
{
    lemma_units_increase(a.magnitude(), b.magnitude());
    lemma_units_increase(b.magnitude(), a.magnitude());
    lemma_units_increase(0, a.magnitude());
    lemma_units_increase(0, b.magnitude());
    lemma_small_mod(0, STEPS as nat);
    assert(units_of(0) == 0);
}

/// Rounding keeps the order of what is rounded: where `a / b <= c / d`, the double nearest to
/// `a / b` units is not above the one nearest to `c / d` units.
pub proof fn rounding_keeps_order(a: nat, b: nat, c: nat, d: nat)
    requires
        b > 0,
        d > 0,
        a * d <= c * b,
    ensures
        rounded(a, b) <= rounded(c, d),
{
    lemma_spacing_exists(a, b);
    lemma_spacing_exists(c, d);
    let k = spacing(a, b);
    let l = spacing(c, d);
    lemma_pow2_52();
    lemma_pow2_pos(k);
    lemma_pow2_pos(l);
    assert(b * pow2(k) > 0) by (nonlinear_arith)
        requires
            b > 0,
            pow2(k) > 0,
    ;
    assert(d * pow2(l) > 0) by (nonlinear_arith)
        requires
            d > 0,
            pow2(l) > 0,
    ;
    if k > l {
        // Then a / b would be above c / d.
        if 53 + l < 52 + k {
            lemma_pow2_strictly_increases(53 + l, 52 + k);
        }
        assert(false) by (nonlinear_arith)
            requires
                a * d <= c * b,
                c < pow2(53 + l) * d,
                pow2(52 + k) * b <= a,
                pow2(53 + l) <= pow2(52 + k),
                b > 0,
                d > 0,
        ;
    }
    let m = half_even(a, b * pow2(k));
    let n = half_even(c, d * pow2(l));
    if k == l {
        let den = (b * pow2(k)) * d;
        assert(den > 0) by (nonlinear_arith)
            requires
                den == (b * pow2(k)) * d,
                b * pow2(k) > 0,
                d > 0,
        ;
        assert(den == (d * pow2(k)) * b) by (nonlinear_arith)
            requires
                den == (b * pow2(k)) * d,
        ;
        lemma_half_even_scale(a, b * pow2(k), d);
        lemma_half_even_scale(c, d * pow2(k), b);
        lemma_half_even_keeps_order(a * d, c * b, den);
    } else {
        lemma_pow2_adds(53, k);
        lemma_pow2_adds(52, l);
        assert(a <= (b * pow2(k)) * pow2(53)) by (nonlinear_arith)
            requires
                a < pow2(53 + k) * b,
                pow2(53 + k) == pow2(53) * pow2(k),
        ;
        lemma_half_even_bounds(a, b * pow2(k), 0, pow2(53));
        assert((d * pow2(l)) * pow2(52) <= c) by (nonlinear_arith)
            requires
                pow2(52 + l) * d <= c,
                pow2(52 + l) == pow2(52) * pow2(l),
        ;
        lemma_half_even_low(c, d * pow2(l), pow2(52));
        assert(k * STEPS + 2 * STEPS <= l * STEPS + STEPS) by (nonlinear_arith)
            requires
                k + 1 <= l,
        ;
    }
    assert(k * STEPS + m <= l * STEPS + n);
}

/// A larger part of a total never has the smaller ratio.
pub proof fn larger_part_larger_ratio(a: u128, b: u128, total: u128)
    requires
        a <= b,
        total > 0,
    ensures
        !ratio_of(b as nat, total as nat).less(ratio_of(a as nat, total as nat)),
{
    let (x, y, t) = (double_of(a as nat), double_of(b as nat), double_of(total as nat));
    lemma_pow2_pos(1074);
    assert(a * pow2(1074) <= b * pow2(1074)) by (nonlinear_arith)
        requires
            a <= b,
    ;
    assert(1 * pow2(1074) <= total * pow2(1074)) by (nonlinear_arith)
        requires
            1 <= total,
    ;
    rounding_keeps_order(a as nat * pow2(1074), 1, b as nat * pow2(1074), 1);
    rounding_keeps_order(1 * pow2(1074), 1, total as nat * pow2(1074), 1);
    lemma_double_of_one();
    lemma_units_increase(x.bits as nat, y.bits as nat);
    lemma_units_increase(double_of(1).bits as nat, t.bits as nat);
    let (u, v, w) = (
        units_of(x.bits as nat),
        units_of(y.bits as nat),
        units_of(t.bits as nat),
    );
    assert((u * pow2(1074)) * w <= (v * pow2(1074)) * w) by (nonlinear_arith)
        requires
            u <= v,
    ;
    rounding_keeps_order(u * pow2(1074), w, v * pow2(1074), w);
}

/// What is a double already is not changed by rounding.
pub proof fn doubles_round_to_themselves(bits: nat)
    requires
        bits < INFINITE,
    ensures
        rounded(units_of(bits), 1) == bits,
{
    let exponent = bits / (STEPS as nat);
    let fraction = bits % (STEPS as nat);
    lemma_fundamental_div_mod(bits as int, STEPS as int);
    lemma_mod_bound(bits as int, STEPS as int);
    lemma_pow2_52();
    let (k, significand) = if exponent == 0 {
        (0nat, fraction)
    } else {
        ((exponent - 1) as nat, (STEPS + fraction) as nat)
    };
    lemma2_to64();
    lemma_pow2_pos(k);
    let power = pow2(k);
    let units = significand * power;
    assert(exponent == 0 ==> units == fraction) by (nonlinear_arith)
        requires
            units == significand * power,
            exponent == 0 ==> power == 1 && significand == fraction,
    ;
    assert(units == units_of(bits));
    lemma_pow2_adds(53, k);
    lemma_pow2_adds(52, k);
    assert(units < pow2(53 + k) * 1) by (nonlinear_arith)
        requires
            units == significand * power,
            significand < 2 * STEPS,
            pow2(53 + k) == 2 * STEPS * power,
            power > 0,
    ;
    assert(k > 0 ==> pow2(52 + k) * 1 <= units) by (nonlinear_arith)
        requires
            units == significand * power,
            k > 0 ==> significand >= STEPS,
            pow2(52 + k) == STEPS * power,
            power > 0,
    ;
    lemma_spacing(units, 1, k);
    assert(1 * power == power);
    lemma_half_even_exact(significand, power);
    assert(k * STEPS + significand == bits) by (nonlinear_arith)
        requires
            bits == STEPS * exponent + fraction,
            exponent == 0 ==> k == 0 && significand == fraction,
            exponent > 0 ==> k == exponent - 1 && significand == STEPS + fraction,
            exponent >= 0,
    ;
}

/// Rounding gives the nearest double: where the doubles next to `num / den` units are `2^k` units
/// apart, the result is off by no more than half of that, and by exactly half only where its last
/// bit is 0.
pub proof fn rounding_is_to_the_nearest(num: nat, den: nat, k: nat)
    requires
        den > 0,
        num < pow2(53 + k) * den,
        k > 0 ==> pow2(52 + k) * den <= num,
        rounded(num, den) < INFINITE,
    ensures
        ({
            let off = 2 * (units_of(rounded(num, den)) * den - num);
            &&& -(pow2(k) * den) <= off <= pow2(k) * den
            &&& off == pow2(k) * den || off == -(pow2(k) * den) ==> rounded(num, den) % 2 == 0
        }),
{
    lemma_spacing(num, den, k);
    lemma_pow2_52();
    lemma_pow2_pos(k);
    lemma_pow2_adds(53, k);
    lemma_pow2_adds(52, k);
    lemma2_to64();
    let power = pow2(k);
    let step = den * power;
    assert(step > 0) by (nonlinear_arith)
        requires
            step == den * power,
            den > 0,
            power > 0,
    ;
    let q = half_even(num, step);
    lemma_fundamental_div_mod(num as int, step as int);
    lemma_mod_bound(num as int, step as int);
    let (floor, rest) = (num / step, num % step);
    assert(step * (2 * STEPS) == pow2(53 + k) * den) by (nonlinear_arith)
        requires
            step == den * power,
            pow2(53 + k) == 2 * STEPS * power,
    ;
    assert(step * 0 == 0);
    lemma_half_even_bounds(num, step, 0, (2 * STEPS) as nat);
    if k > 0 {
        assert(step * STEPS == pow2(52 + k) * den) by (nonlinear_arith)
            requires
                step == den * power,
                pow2(52 + k) == STEPS * power,
        ;
        lemma_half_even_bounds(num, step, STEPS as nat, (2 * STEPS) as nat);
    }
    let bits = rounded(num, den);
    assert(bits == k * STEPS + q);
    assert(units_of(bits) == q * power) by {
        if q == 2 * STEPS {
            lemma_units_of_parts(STEPS as nat, k + 1);
            lemma_pow2_unfold(k + 1);
            assert((k + 1) * STEPS + STEPS == k * STEPS + 2 * STEPS) by (nonlinear_arith);
            assert(STEPS * (2 * power) == (2 * STEPS) * power) by (nonlinear_arith);
        } else if q >= STEPS {
            lemma_units_of_parts(q, k);
        } else {
            assert(k == 0);
            lemma_small_div(q as int, STEPS as int);
            lemma_small_mod(q, STEPS as nat);
            assert(q * power == q) by (nonlinear_arith)
                requires
                    power == 1,
            ;
        }
    }
    assert(q * power * den == q * step) by (nonlinear_arith)
        requires
            step == den * power,
    ;
    assert(power * den == step) by (nonlinear_arith)
        requires
            step == den * power,
    ;
    assert(num == step * floor + rest);
    if q == floor {
        assert(q * step - num == -rest) by (nonlinear_arith)
            requires
                q == floor,
                num == step * floor + rest,
        ;
    } else {
        assert(q * step - num == step - rest) by (nonlinear_arith)
            requires
                q == floor + 1,
                num == step * floor + rest,
        ;
    }
    assert(bits % 2 == q % 2) by {
        let half = (STEPS / 2) as int;
        assert(bits == 2 * (k * half) + q) by (nonlinear_arith)
            requires
                bits == k * STEPS + q,
                STEPS == 2 * half,
        ;
    }
}

/// Nothing is no part of a total, and neither is eight times nothing.
pub proof fn nothing_is_no_part(total: u128)
    requires
        total > 0,
    ensures
        ratio_of(0, total as nat) == (Double { bits: 0 }),
        quotient_of(
            product_of(double_of(0), (Double { bits: EIGHT })),
            double_of(total as nat),
        ) == (Double { bits: 0 }),
{
    let t = double_of(total as nat);
    lemma_pow2_pos(1074);
    assert(1 * pow2(1074) <= total * pow2(1074)) by (nonlinear_arith)
        requires
            1 <= total,
    ;
    rounding_keeps_order(1 * pow2(1074), 1, total as nat * pow2(1074), 1);
    lemma_double_of_one();
    lemma_units_increase(double_of(1).bits as nat, t.bits as nat);
    assert(0 * pow2(1074) == 0);
    lemma_rounded_zero(1);
    lemma_small_mod(0, STEPS as nat);
    assert(units_of(0) == 0);
    lemma_rounded_zero(units_of(t.bits as nat));
    assert(0 * units_of(EIGHT as nat) == 0);
    lemma_rounded_zero(pow2(1074));
}

proof fn lemma_double_of_one()
    ensures
        units_of(double_of(1).bits as nat) > 0,
{
    lemma_pow2_52();
    lemma_pow2_adds(52, 1022);
    lemma_pow2_pos(1022);
    lemma_pow2_strictly_increases(1074, 1075);
    lemma_spacing(1 * pow2(1074), 1, 1022);
    lemma_half_even_exact(pow2(52), pow2(1022));
    lemma_units_of_parts(STEPS as nat, 1022);
    assert(STEPS * pow2(1022) > 0) by (nonlinear_arith)
        requires
            pow2(1022) > 0,
            STEPS > 0,
    ;
}

proof fn lemma_spacing_exists(num: nat, den: nat)
    requires
        den > 0,
    ensures
        is_spacing(num, den, spacing(num, den)),
{
    lemma_power_above(num);
    lemma_pow2_adds(53, num);
    lemma_pow2_52();
    assert(num < pow2(53 + num) * den) by (nonlinear_arith)
        requires
            num < pow2(num),
            pow2(53 + num) == 2 * STEPS * pow2(num),
            den > 0,
            STEPS > 0,
    ;
    lemma_spacing_below(num, den, num);
}

proof fn lemma_power_above(n: nat)
    ensures
        n < pow2(n),
    decreases n,
{
    lemma2_to64();
    if n > 0 {
        lemma_power_above((n - 1) as nat);
        lemma_pow2_unfold(n);
    }
}

proof fn lemma_spacing_below(num: nat, den: nat, j: nat)
    requires
        num < pow2(53 + j) * den,
    ensures
        exists|k: nat| is_spacing(num, den, k),
    decreases j,
{
    if j > 0 && num < pow2(52 + j) * den {
        lemma_spacing_below(num, den, (j - 1) as nat);
    } else {
        assert(is_spacing(num, den, j));
    }
}

proof fn lemma_half_even_keeps_order(a: nat, b: nat, den: nat)
    requires
        den > 0,
        a <= b,
    ensures
        half_even(a, den) <= half_even(b, den),
{
    lemma_div_is_ordered(a as int, b as int, den as int);
    lemma_fundamental_div_mod(a as int, den as int);
    lemma_fundamental_div_mod(b as int, den as int);
}

proof fn lemma_half_even_low(num: nat, den: nat, low: nat)
    requires
        den > 0,
        den * low <= num,
    ensures
        low <= half_even(num, den),
{
    lemma_fundamental_div_mod(num as int, den as int);
    lemma_mod_bound(num as int, den as int);
    let floor = num / den;
    assert(low <= floor) by (nonlinear_arith)
        requires
            den * low <= num,
            num == den * floor + num % den,
            num % den < den,
            den > 0,
    ;
}

/// Larger bits are a larger value.
proof fn lemma_units_increase(a: nat, b: nat)
    ensures
        a < b ==> units_of(a) < units_of(b),
        a == b ==> units_of(a) == units_of(b),
{
    if a < b {
        let steps = STEPS as nat;
        let (ea, fa, eb, fb) = (a / steps, a % steps, b / steps, b % steps);
        lemma_div_is_ordered(a as int, b as int, steps as int);
        lemma_fundamental_div_mod(a as int, steps as int);
        lemma_fundamental_div_mod(b as int, steps as int);
        lemma2_to64();
        if ea == eb {
            if ea > 0 {
                lemma_pow2_pos((ea - 1) as nat);
                assert((steps + fa) * pow2((ea - 1) as nat) < (steps + fb) * pow2(
                    (ea - 1) as nat,
                )) by (nonlinear_arith)
                    requires
                        fa < fb,
                        pow2((ea - 1) as nat) > 0,
                ;
            }
        } else {
            // The value at b is at least steps * 2^(eb - 1), that at a less than that.
            let low = pow2((eb - 1) as nat);
            lemma_pow2_pos((eb - 1) as nat);
            assert(steps * low <= (steps + fb) * low) by (nonlinear_arith);
            if ea == 0 {
                assert(fa < steps * low) by (nonlinear_arith)
                    requires
                        fa < steps,
                        low > 0,
                ;
            } else {
                let p = pow2((ea - 1) as nat);
                lemma_pow2_pos((ea - 1) as nat);
                lemma_pow2_unfold(ea);
                if ea < eb - 1 {
                    lemma_pow2_strictly_increases(ea, (eb - 1) as nat);
                }
                assert((steps + fa) * p < steps * low) by (nonlinear_arith)
                    requires
                        fa < steps,
                        2 * p <= low,
                        p > 0,
                ;
            }
        }
    }
}

/// Of two numbers the first is either less or no less, and what is not a number is neither. Both
/// zeros are one, and no number lies above positive infinity.
pub proof fn numbers_can_be_compared(a: Double, b: Double, below: bool, at_least: bool, above: bool)
    requires
        call_ensures(Double::below, (a, b), below),
        call_ensures(Double::at_least, (a, b), at_least),
        call_ensures(Double::below, (b, a), above),
    ensures
        a.is_nan() || b.is_nan() <==> !below && !at_least,
        !(below && at_least),
        !(below && above),
        a.is_nan() <==> 0x7ff0_0000_0000_0000 < a.bits < 0x8000_0000_0000_0000 || a.bits
            > 0xfff0_0000_0000_0000,
        a.bits == 0 && b.bits == 0x8000_0000_0000_0000 ==> at_least && !above,
        a.bits == 0x7ff0_0000_0000_0000 && !b.is_nan() ==> at_least,
{
}

/// The order of two factors does not matter, and neither does the sign for the size of the product.
pub proof fn factors_change_places(a: Double, b: Double, product: Double, other: Double)
    requires
        call_ensures(Double::times, (a, b), product),
        call_ensures(Double::times, (b, a), other),
    ensures
        product == other,
        a.is_nan() || b.is_nan() ==> product.is_nan(),
{
    lemma_mul_is_commutative(units_of(a.magnitude()) as int, units_of(b.magnitude()) as int);
}

/// Whether a double is no farther than half of `2^k` units from `num / den` units, and exactly that
/// far only where its last bit is 0.
pub open spec fn is_near(d: Double, num: nat, den: nat, k: nat) -> bool {
    let off = 2 * (units_of(d.bits as nat) * den - num);
    &&& -(pow2(k) * den) <= off <= pow2(k) * den
    &&& off == pow2(k) * den || off == -(pow2(k) * den) ==> d.bits % 2 == 0
}

/// Whether the doubles next to `num / den` units are `2^k` units apart.
pub open spec fn are_apart(num: nat, den: nat, k: nat) -> bool {
    num < pow2(53 + k) * den && (k > 0 ==> pow2(52 + k) * den <= num)
}

/// A whole number becomes the double nearest to it.
pub proof fn integers_become_the_nearest(n: u128, d: Double, k: nat)
    requires
        call_ensures(Double::from_integer, (n,), d),
        are_apart(n as nat * pow2(1074), 1, k),
        d.bits < INFINITE,
    ensures
        is_near(d, n as nat * pow2(1074), 1, k),
{
    let num = n as nat * pow2(1074);
    rounding_is_to_the_nearest(num, 1, k);
}

/// A quotient is the double nearest to the exact one.
pub proof fn quotients_are_the_nearest(a: Double, b: Double, d: Double, k: nat)
    requires
        units_of(b.bits as nat) > 0,
        call_ensures(Double::over, (a, b), d),
        are_apart(units_of(a.bits as nat) * pow2(1074), units_of(b.bits as nat), k),
        d.bits < INFINITE,
    ensures
        is_near(d, units_of(a.bits as nat) * pow2(1074), units_of(b.bits as nat), k),
{
    rounding_is_to_the_nearest(units_of(a.bits as nat) * pow2(1074), units_of(b.bits as nat), k);
}

/// A product of finite numbers, neither negative, is the double nearest to the exact one.
pub proof fn products_are_the_nearest(a: Double, b: Double, d: Double, k: nat)
    requires
        a.bits < INFINITE,
        b.bits < INFINITE,
        call_ensures(Double::times, (a, b), d),
        are_apart(units_of(a.bits as nat) * units_of(b.bits as nat), pow2(1074), k),
        d.bits < INFINITE,
    ensures
        is_near(d, units_of(a.bits as nat) * units_of(b.bits as nat), pow2(1074), k),
{
    lemma_pow2_pos(1074);
    rounding_is_to_the_nearest(
        units_of(a.bits as nat) * units_of(b.bits as nat),
        pow2(1074),
        k,
    );
}

/// Bits are kept.
pub proof fn bits_are_kept(bits: u64, d: Double, again: u64)
    requires
        call_ensures(Double::from_bits, (bits,), d),
        call_ensures(Double::to_bits, (d,), again),
    ensures
        again == bits,
        d.bits == bits,
{
}

} // verus!
