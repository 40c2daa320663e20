//! Numbers in the IEEE 754 binary64 format, by their bits.
//!
//! The tracker compares confidences and overlaps with thresholds, and turns
//! an overlap into a cost. Both need the bits of a number only, so both are
//! integer arithmetic here.

use vstd::arithmetic::power2::{
    lemma2_to64, lemma2_to64_rest, lemma_pow2_adds, lemma_pow2_pos, lemma_pow2_strictly_increases,
    pow2,
};
use vstd::prelude::*;

verus! {

/// The number of fractions between two neighbouring powers of two: 2^52.
pub const FRACTIONS: u64 = 0x10_0000_0000_0000;

/// The bits of the sign alone; as a number, negative zero.
pub const SIGN: u64 = 0x8000_0000_0000_0000;

/// The bits of infinity. Larger magnitudes are not numbers.
pub const INFINITY_BITS: u64 = 0x7ff0_0000_0000_0000;

/// The bits of the number 1.
pub const ONE_BITS: u64 = 0x3ff0_0000_0000_0000;

/// The cost of no overlap at all, 1, in units of 2^-53.
pub const COST_ONE: i64 = 0x20_0000_0000_0000;

/// A binary64 number, given by its bits.
#[derive(Clone, Copy, Debug)]
pub struct Binary64 {
    pub bits: u64,
}

/// The number that a magnitude (the bits without the sign) stands for, times
/// 2^1074, which makes every number of the format an integer. Infinity comes
/// out as the power of two above all finite numbers.
pub open spec fn scaled_magnitude(magnitude: int) -> int {
    let exponent = magnitude / FRACTIONS as int;
    let fraction = magnitude % FRACTIONS as int;
    if exponent == 0 {
        fraction
    } else {
        (FRACTIONS + fraction) * pow2((exponent - 1) as nat)
    }
}

/// The integer nearest to `numerator / denominator`; the even one of two that
/// are as near.
pub open spec fn nearest_even(numerator: int, denominator: int) -> int {
    let below = numerator / denominator;
    let rest = numerator % denominator;
    if 2 * rest < denominator || (2 * rest == denominator && below % 2 == 0) {
        below
    } else {
        below + 1
    }
}

/// `1 - x` in units of 2^-53, rounded to the nearest unit, half a unit to the
/// even one. For `x` from 0 to 1 this is the difference `1 - x` as binary64
/// arithmetic rounds it: all such differences are whole units.
pub open spec fn overlap_cost(x: Binary64) -> int {
    nearest_even(pow2(1074) - x.scaled(), pow2(1021) as int)
}

impl Binary64 {
    pub open spec fn is_negative(self) -> bool {
        self.bits >= SIGN
    }

    /// The bits without the sign.
    pub open spec fn magnitude(self) -> int {
        if self.is_negative() {
            self.bits - SIGN
        } else {
            self.bits as int
        }
    }

    pub open spec fn is_nan(self) -> bool {
        self.magnitude() > INFINITY_BITS
    }

    /// The number times 2^1074.
    pub open spec fn scaled(self) -> int {
        if self.is_negative() {
            -scaled_magnitude(self.magnitude())
        } else {
            scaled_magnitude(self.magnitude())
        }
    }

    /// `self >= other`, which is false where either is not a number.
    pub open spec fn at_least(self, other: Binary64) -> bool {
        !self.is_nan() && !other.is_nan() && self.scaled() >= other.scaled()
    }

    /// The numbers are equal; what is not a number equals nothing.
    pub open spec fn equals(self, other: Binary64) -> bool {
        !self.is_nan() && !other.is_nan() && self.scaled() == other.scaled()
    }

    /// `0 <= self <= 1`.
    pub open spec fn in_unit_interval(self) -> bool {
        !self.is_nan() && 0 <= self.scaled() <= pow2(1074)
    }

    /// The number with the given bits.
    pub fn from_bits(bits: u64) -> (x: Binary64)
        ensures
            x.bits == bits,
    {
        Binary64 { bits }
    }

    /// The bits without the sign, with the sign put back as that of an integer.
    fn ordinal(self) -> (ordinal: i128)
        ensures
            ordinal == if self.is_negative() {
                -self.magnitude()
            } else {
                self.magnitude()
            },
    {
        if self.bits >= SIGN {
            -((self.bits - SIGN) as i128)
        } else {
            self.bits as i128
        }
    }

    /// Whether `self >= other`.
    pub fn ge(self, other: Binary64) -> (result: bool)
        ensures
            result == self.at_least(other),
    {
        let limit: i128 = INFINITY_BITS as i128;
        let a: i128 = self.ordinal();
        let b: i128 = other.ordinal();
        proof {
            lemma_scaled_orders(self, other);
        }
        -limit <= a && a <= limit && -limit <= b && b <= limit && a >= b
    }

    /// Whether `0 <= self <= 1`.
    pub fn is_unit(self) -> (result: bool)
        ensures
            result == self.in_unit_interval(),
    {
        let zero = Binary64 { bits: 0 };
        let one = Binary64 { bits: ONE_BITS };
        proof {
            lemma_one();
        }
        self.ge(zero) && one.ge(self)
    }

    /// The cost of an overlap: `1 - self`.
    pub fn cost(self) -> (cost: i64)
        requires
            self.in_unit_interval(),
        ensures
            cost == overlap_cost(self),
            0 <= cost <= COST_ONE,
    {
        proof {
            lemma_unit_bits(self);
            lemma_cost(self);
        }
        if self.bits == ONE_BITS {
            return 0;
        }
        if self.bits == SIGN {
            return COST_ONE;
        }
        let exponent: u64 = self.bits / FRACTIONS;
        if exponent <= 968 {
            return COST_ONE;
        }
        let significand: u64 = FRACTIONS + self.bits % FRACTIONS;
        let dropped: u64 = 1022 - exponent;
        proof {
            lemma2_to64();
            lemma2_to64_rest();
            if dropped < 53 {
                lemma_pow2_strictly_increases(dropped as nat, 53);
            }
            vstd::bits::lemma_u64_shl_is_mul(1, dropped);
        }
        let unit: u64 = 1u64 << dropped;
        let whole: u64 = significand / unit;
        let rest: u64 = significand % unit;
        assert(whole <= significand) by (nonlinear_arith)
            requires
                whole == significand / unit,
                unit >= 1,
        ;
        if 2 * rest > unit || (2 * rest == unit && whole % 2 == 1) {
            COST_ONE - whole as i64 - 1
        } else {
            COST_ONE - whole as i64
        }
    }
}

impl vstd::std_specs::cmp::PartialEqSpecImpl for Binary64 {
    open spec fn obeys_eq_spec() -> bool {
        true
    }

    open spec fn eq_spec(&self, other: &Self) -> bool {
        self.equals(*other)
    }
}

impl PartialEq for Binary64 {
    fn eq(&self, other: &Self) -> (result: bool) {
        self.ge(*other) && other.ge(*self)
    }
}

/// Larger magnitudes stand for larger numbers.
proof fn lemma_magnitude_orders(a: int, b: int)
    requires
        0 <= a < b,
    ensures
        0 <= scaled_magnitude(a) < scaled_magnitude(b),
{
    let n = FRACTIONS as int;
    let (ea, fa) = (a / n, a % n);
    let (eb, fb) = (b / n, b % n);
    if eb > 0 {
        lemma_pow2_pos((eb - 1) as nat);
    }
    if ea == eb {
        if ea > 0 {
            let p = pow2((ea - 1) as nat) as int;
            assert(0 <= (n + fa) * p < (n + fb) * p) by (nonlinear_arith)
                requires
                    0 <= fa < fb,
                    n > 0,
                    p > 0,
            ;
        }
    } else {
        let q = pow2((eb - 1) as nat) as int;
        assert((n + fb) * q >= n * q && n * q >= n) by (nonlinear_arith)
            requires
                fb >= 0,
                n > 0,
                q >= 1,
        ;
        if ea > 0 {
            let p = pow2((ea - 1) as nat) as int;
            lemma_pow2_pos((ea - 1) as nat);
            lemma_pow2_adds(1, (ea - 1) as nat);
            lemma2_to64();
            if ea < eb - 1 {
                lemma_pow2_strictly_increases(ea as nat, (eb - 1) as nat);
            }
            assert(2 * p <= q);
            assert(0 <= (n + fa) * p < n * q) by (nonlinear_arith)
                requires
                    0 <= fa < n,
                    p > 0,
                    2 * p <= q,
            ;
        }
    }
}

/// The order of the numbers is that of their magnitudes with the sign put back.
proof fn lemma_scaled_orders(x: Binary64, y: Binary64)
    ensures
        x.scaled() >= y.scaled() <==> (if x.is_negative() {
            -x.magnitude()
        } else {
            x.magnitude()
        }) >= (if y.is_negative() {
            -y.magnitude()
        } else {
            y.magnitude()
        }),
{
    let (a, b) = (x.magnitude(), y.magnitude());
    assert(scaled_magnitude(0) == 0);
    if a > 0 {
        lemma_magnitude_orders(0, a);
    }
    if b > 0 {
        lemma_magnitude_orders(0, b);
    }
    if a < b {
        lemma_magnitude_orders(a, b);
    }
    if b < a {
        lemma_magnitude_orders(b, a);
    }
}

proof fn lemma_one()
    ensures
        !(Binary64 { bits: 0 }).is_nan(),
        (Binary64 { bits: 0 }).scaled() == 0,
        !(Binary64 { bits: ONE_BITS }).is_nan(),
        (Binary64 { bits: ONE_BITS }).scaled() == pow2(1074),
{
    assert(ONE_BITS as int / FRACTIONS as int == 1023);
    assert(ONE_BITS as int % FRACTIONS as int == 0);
    lemma_pow2_adds(52, 1022);
    lemma2_to64();
    lemma2_to64_rest();
}

/// The bits of the numbers from 0 to 1.
proof fn lemma_unit_bits(x: Binary64)
    requires
        x.in_unit_interval(),
    ensures
        x.bits <= ONE_BITS || x.bits == SIGN,
{
    lemma_one();
    lemma_scaled_orders(x, Binary64 { bits: 0 });
    lemma_scaled_orders(Binary64 { bits: ONE_BITS }, x);
}

/// Bits up to those of 1 are those of numbers from 0 to 1.
pub proof fn lemma_below_one(x: Binary64)
    requires
        x.bits <= ONE_BITS,
    ensures
        x.in_unit_interval(),
{
    lemma_one();
    lemma_scaled_orders(x, Binary64 { bits: 0 });
    lemma_scaled_orders(Binary64 { bits: ONE_BITS }, x);
}

/// Rounding `whole - x / unit` for an even `whole` by quotient and rest of `x`.
proof fn lemma_nearest_difference(whole: int, unit: int, x: int, q: int, r: int)
    requires
        unit > 0,
        whole % 2 == 0,
        x == q * unit + r,
        0 <= r < unit,
    ensures
        nearest_even(whole * unit - x, unit) == whole - q - if 2 * r > unit || (2 * r == unit && q
            % 2 == 1) {
            1int
        } else {
            0
        },
{
    let n = whole * unit - x;
    if r == 0 {
        assert(n == (whole - q) * unit) by (nonlinear_arith)
            requires
                n == whole * unit - x,
                x == q * unit,
        ;
        vstd::arithmetic::div_mod::lemma_fundamental_div_mod_converse(n, unit, whole - q, 0);
    } else {
        assert(n == (whole - q - 1) * unit + (unit - r)) by (nonlinear_arith)
            requires
                n == whole * unit - x,
                x == q * unit + r,
        ;
        vstd::arithmetic::div_mod::lemma_fundamental_div_mod_converse(
            n,
            unit,
            whole - q - 1,
            unit - r,
        );
    }
}

/// The cost by exponent and fraction.
proof fn lemma_cost(x: Binary64)
    requires
        x.in_unit_interval(),
    ensures
        x.bits == ONE_BITS ==> overlap_cost(x) == 0,
        x.bits == SIGN ==> overlap_cost(x) == COST_ONE,
        x.bits < ONE_BITS ==> {
            let exponent = x.bits as int / FRACTIONS as int;
            let significand = FRACTIONS + x.bits as int % FRACTIONS as int;
            let unit = pow2((1022 - exponent) as nat) as int;
            &&& exponent <= 1022
            &&& exponent <= 968 ==> overlap_cost(x) == COST_ONE
            &&& exponent > 968 ==> overlap_cost(x) == COST_ONE - significand / unit - if 2 * (
            significand % unit) > unit || (2 * (significand % unit) == unit && (significand / unit)
                % 2 == 1) {
                1int
            } else {
                0
            }
        },
{
    let n = FRACTIONS as int;
    let whole = COST_ONE as int;
    let unit = pow2(1021) as int;
    lemma_one();
    lemma_unit_bits(x);
    lemma2_to64();
    lemma2_to64_rest();
    lemma_pow2_pos(1021);
    lemma_pow2_adds(53, 1021);
    assert(pow2(1074) == whole * unit);
    if x.bits == ONE_BITS {
        assert(x.scaled() == whole * unit + 0);
        lemma_nearest_difference(whole, unit, x.scaled(), whole, 0);
    } else if x.bits == SIGN {
        assert(x.scaled() == 0 * unit + 0);
        lemma_nearest_difference(whole, unit, x.scaled(), 0, 0);
    } else {
        let exponent = x.bits as int / n;
        let fraction = x.bits as int % n;
        let significand = n + fraction;
        assert(exponent <= 1022);
        if exponent == 0 {
            lemma_pow2_strictly_increases(53, 1021);
            lemma_nearest_difference(whole, unit, x.scaled(), 0, fraction);
        } else {
            let step = pow2((exponent - 1) as nat) as int;
            let d = pow2((1022 - exponent) as nat) as int;
            lemma_pow2_pos((exponent - 1) as nat);
            lemma_pow2_pos((1022 - exponent) as nat);
            lemma_pow2_adds((1022 - exponent) as nat, (exponent - 1) as nat);
            assert(unit == d * step);
            assert(x.scaled() == significand * step);
            let q = significand / d;
            let r = significand % d;
            vstd::arithmetic::div_mod::lemma_fundamental_div_mod(significand, d);
            assert(significand == d * q + r);
            assert(0 <= r < d);
            assert(significand * step == q * unit + r * step) by (nonlinear_arith)
                requires
                    significand == d * q + r,
                    unit == d * step,
            ;
            assert(0 <= r * step < unit && (2 * (r * step) > unit <==> 2 * r > d) && (2 * (r * step)
                == unit <==> 2 * r == d)) by (nonlinear_arith)
                requires
                    0 <= r < d,
                    step > 0,
                    unit == d * step,
            ;
            lemma_nearest_difference(whole, unit, x.scaled(), q, r * step);
            if exponent <= 968 {
                if exponent < 968 {
                    lemma_pow2_strictly_increases(54, (1022 - exponent) as nat);
                }
                assert(d >= pow2(54));
                assert(significand < d);
                vstd::arithmetic::div_mod::lemma_fundamental_div_mod_converse(
                    significand,
                    d,
                    0,
                    significand,
                );
            }
        }
    }
}

proof fn lemma_nearest_even_orders(a: int, b: int, denominator: int)
    requires
        a <= b,
        denominator > 0,
    ensures
        nearest_even(a, denominator) <= nearest_even(b, denominator),
{
    let d = denominator;
    vstd::arithmetic::div_mod::lemma_fundamental_div_mod(a, d);
    vstd::arithmetic::div_mod::lemma_fundamental_div_mod(b, d);
    let (qa, ra, qb, rb) = (a / d, a % d, b / d, b % d);
    assert(qa <= qb && (qa == qb ==> ra <= rb)) by (nonlinear_arith)
        requires
            a <= b,
            d > 0,
            a == d * qa + ra,
            b == d * qb + rb,
            0 <= ra < d,
            0 <= rb < d,
    ;
}

/// A larger overlap costs no more; an overlap of 1 costs nothing, and one of 0
/// costs 1.
pub proof fn lemma_overlap_cost(x: Binary64, y: Binary64)
    requires
        x.in_unit_interval(),
        y.in_unit_interval(),
    ensures
        x.at_least(y) ==> overlap_cost(x) <= overlap_cost(y),
        x.scaled() == pow2(1074) ==> overlap_cost(x) == 0,
        x.scaled() == 0 ==> overlap_cost(x) == COST_ONE,
{
    lemma_pow2_pos(1021);
    if x.at_least(y) {
        lemma_nearest_even_orders(
            pow2(1074) - x.scaled(),
            pow2(1074) - y.scaled(),
            pow2(1021) as int,
        );
    }
    lemma_pow2_adds(53, 1021);
    lemma2_to64_rest();
    let unit = pow2(1021) as int;
    assert(pow2(1074) == COST_ONE * unit);
    if x.scaled() == pow2(1074) {
        lemma_nearest_difference(COST_ONE as int, unit, x.scaled(), COST_ONE as int, 0);
    }
    if x.scaled() == 0 {
        assert(x.scaled() == 0 * unit + 0);
        lemma_nearest_difference(COST_ONE as int, unit, x.scaled(), 0, 0);
    }
}

/// Numbers compare as their bits do: positive ones by their bits, negative ones
/// the other way round, a negative one below a positive one, and the two zeros
/// as equals. What is not a number is not at least anything.
pub proof fn lemma_order_by_bits(x: Binary64, y: Binary64)
    ensures
        ({
            let sign = 0x8000_0000_0000_0000u64;
            let top = 0x7ff0_0000_0000_0000u64;
            let x_number = x.bits <= top || sign <= x.bits <= sign + top;
            let y_number = y.bits <= top || sign <= y.bits <= sign + top;
            &&& !x_number || !y_number ==> !x.at_least(y)
            &&& x.bits <= top && y.bits <= top ==> (x.at_least(y) <==> x.bits >= y.bits)
            &&& x.bits <= top && sign <= y.bits <= sign + top ==> x.at_least(y)
            &&& sign <= x.bits <= sign + top && y.bits <= top ==> (x.at_least(y) <==> x.bits
                == sign && y.bits == 0)
            &&& sign <= x.bits <= sign + top && sign <= y.bits <= sign + top ==> (x.at_least(y)
                <==> x.bits <= y.bits)
        }),
{
    lemma_scaled_orders(x, y);
}

/// Two numbers are equal if each is at least the other.
pub proof fn lemma_equal_by_order(x: Binary64, y: Binary64)
    ensures
        x.equals(y) <==> x.at_least(y) && y.at_least(x),
        vstd::std_specs::cmp::PartialEqSpec::eq_spec(&x, &y) <==> x.at_least(y) && y.at_least(x),
{
}

/// The numbers from 0 to 1 are those with the bits from 0 to those of 1, and
/// negative zero.
pub proof fn lemma_unit_interval_by_bits(x: Binary64)
    ensures
        x.in_unit_interval() <==> x.bits <= 0x3ff0_0000_0000_0000 || x.bits
            == 0x8000_0000_0000_0000,
{
    if x.bits <= ONE_BITS {
        lemma_below_one(x);
    }
    if x.in_unit_interval() {
        lemma_unit_bits(x);
    }
    if x.bits == SIGN {
        lemma_one();
        assert(x.scaled() == 0);
    }
}

/// What the bits stand for: the smallest numbers are their bits in units of
/// 2^-1074, the next exponent doubles a number, the sign negates it, and so
/// 1 is 2^1074 units.
pub proof fn lemma_scaled_by_bits(bits: u64)
    requires
        bits < 0x7fe0_0000_0000_0000,
    ensures
        bits <= 0x20_0000_0000_0000 ==> (Binary64 { bits }).scaled() == bits,
        bits >= 0x10_0000_0000_0000 ==> (Binary64 {
            bits: (bits + 0x10_0000_0000_0000) as u64,
        }).scaled() == 2 * (Binary64 { bits }).scaled(),
        (Binary64 { bits: (bits + 0x8000_0000_0000_0000) as u64 }).scaled() == -(Binary64 {
            bits,
        }).scaled(),
        (Binary64 { bits: 0x3ff0_0000_0000_0000 }).scaled() == pow2(1074),
{
    let n = FRACTIONS as int;
    let b = bits as int;
    lemma_one();
    lemma2_to64();
    if bits >= FRACTIONS {
        let e = b / n;
        let f = b % n;
        assert((b + n) / n == e + 1 && (b + n) % n == f);
        lemma_pow2_adds(1, (e - 1) as nat);
        let p = pow2((e - 1) as nat) as int;
        assert((n + f) * (2 * p) == 2 * ((n + f) * p)) by (nonlinear_arith);
    }
    if FRACTIONS <= bits <= 0x20_0000_0000_0000 {
        if bits < 0x20_0000_0000_0000 {
            assert(b / n == 1);
            assert((n + b % n) * pow2(0) == b) by (nonlinear_arith)
                requires
                    pow2(0) == 1,
                    n + b % n == b,
            ;
        } else {
            assert(b / n == 2 && b % n == 0);
            assert((n + b % n) * pow2(1) == b) by (nonlinear_arith)
                requires
                    pow2(1) == 2,
                    b % n == 0,
                    2 * n == b,
            ;
        }
    }
}

/// The cost of an overlap is the whole number of units of 2^-53 nearest to
/// 1 less the overlap, and even where two are as near.
pub proof fn lemma_cost_is_nearest(x: Binary64)
    requires
        x.in_unit_interval(),
    ensures
        ({
            let off = overlap_cost(x) * pow2(1021) - (pow2(1074) - x.scaled());
            &&& -(pow2(1021) as int) <= 2 * off <= pow2(1021)
            &&& 2 * off == pow2(1021) || 2 * off == -(pow2(1021) as int) ==> overlap_cost(x) % 2 == 0
        }),
        0 <= overlap_cost(x) <= 0x20_0000_0000_0000,
{
    let unit = pow2(1021) as int;
    let n = pow2(1074) - x.scaled();
    lemma_pow2_pos(1021);
    vstd::arithmetic::div_mod::lemma_fundamental_div_mod(n, unit);
    let (below, rest) = (n / unit, n % unit);
    assert(n == unit * below + rest);
    assert(0 <= rest < unit);
    assert(below * unit == unit * below && (below + 1) * unit == unit * below + unit)
        by (nonlinear_arith);
    lemma_one();
    lemma_scaled_orders(x, Binary64 { bits: 0 });
    lemma_overlap_cost(x, Binary64 { bits: 0 });
    lemma_overlap_cost(Binary64 { bits: 0 }, x);
    lemma_below_one(Binary64 { bits: ONE_BITS });
    lemma_overlap_cost(Binary64 { bits: ONE_BITS }, x);
}

/// Only a complete overlap costs nothing.
pub proof fn lemma_only_one_is_free(x: Binary64)
    requires
        x.in_unit_interval(),
    ensures
        overlap_cost(x) == 0 <==> x.bits == 0x3ff0_0000_0000_0000,
{
    let below = Binary64 { bits: 0x3fef_ffff_ffff_ffff };
    lemma_unit_bits(x);
    lemma_below_one(below);
    lemma_cost(x);
    lemma_cost(below);
    lemma2_to64();
    assert(0x3fef_ffff_ffff_ffffint / FRACTIONS as int == 1022);
    assert(0x3fef_ffff_ffff_ffffint % FRACTIONS as int == FRACTIONS - 1);
    if x.bits < ONE_BITS {
        lemma_scaled_orders(below, x);
        lemma_overlap_cost(below, x);
    }
}

} // verus!
