//! Single-precision binary floating-point numbers as bit patterns.
//!
//! A `Scalar` is the bit pattern of an IEEE 754 binary32 number: one sign bit,
//! eight exponent bits, twenty-three fraction bits. Every finite binary32 value
//! is a whole multiple of 2^-149, so the value of a scalar is modelled exactly
//! by an integer count of such units.

use vstd::prelude::*;
use vstd::arithmetic::div_mod::*;
use vstd::arithmetic::mul::*;
use vstd::arithmetic::power2::*;

verus! {

/// Side length of a spatial-index cell, in world units.
pub const GRID_SIZE: u32 = 32;

/// The bit pattern of a binary32 number.
#[derive(Clone, Copy, Debug, PartialEq, Eq, Structural)]
pub struct Scalar {
    pub bits: u32,
}

/// `value` limited to the range of `i32`.
pub open spec fn saturate(value: int) -> int {
    if value < i32::MIN {
        i32::MIN as int
    } else if value > i32::MAX {
        i32::MAX as int
    } else {
        value
    }
}

impl Scalar {
    /// Whether the sign bit is set.
    pub open spec fn negative(self) -> bool {
        self.bits >= 0x8000_0000
    }

    /// The biased exponent field.
    pub open spec fn exponent(self) -> nat {
        ((self.bits / 0x80_0000) % 0x100) as nat
    }

    /// The fraction field.
    pub open spec fn fraction(self) -> nat {
        (self.bits % 0x80_0000) as nat
    }

    /// Whether the pattern is a NaN.
    pub open spec fn is_nan(self) -> bool {
        self.exponent() == 255 && self.fraction() != 0
    }

    /// The integer significand: the fraction, with the implicit leading bit
    /// for every pattern that is not subnormal.
    pub open spec fn significand(self) -> nat {
        if self.exponent() == 0 {
            self.fraction()
        } else {
            0x80_0000 + self.fraction()
        }
    }

    /// The power of two by which the significand is scaled, counted from the
    /// unit 2^-149.
    pub open spec fn scale(self) -> nat {
        if self.exponent() == 0 {
            0
        } else {
            (self.exponent() - 1) as nat
        }
    }

    /// The absolute value in units of 2^-149. An infinity counts as
    /// 2^277 units, more than any finite value.
    pub open spec fn magnitude(self) -> nat {
        self.significand() * pow2(self.scale())
    }

    /// The value in units of 2^-149. Meaningless for a NaN.
    pub open spec fn units(self) -> int {
        if self.negative() {
            -(self.magnitude() as int)
        } else {
            self.magnitude() as int
        }
    }

    /// The floating-point comparison `self <= other`: false when either side
    /// is a NaN, and the two zeros are equal.
    pub open spec fn le(self, other: Scalar) -> bool {
        !self.is_nan() && !other.is_nan() && self.units() <= other.units()
    }

    /// The index of the grid cell that holds this coordinate:
    /// `floor(value / GRID_SIZE)`, limited to the range of `i32`, and 0 for a
    /// NaN.
    pub open spec fn grid_index(self) -> int {
        if self.is_nan() {
            0
        } else {
            saturate(self.units() / (GRID_SIZE * pow2(149)))
        }
    }

    /// The pattern without its sign bit. It grows with the magnitude.
    pub open spec fn magnitude_bits(self) -> nat {
        (self.bits % 0x8000_0000) as nat
    }

    /// Wraps a bit pattern.
    pub fn from_bits(bits: u32) -> (s: Scalar)
        ensures
            s.bits == bits,
    {
        Scalar { bits }
    }

    /// The bit pattern.
    pub fn to_bits(self) -> (bits: u32)
        ensures
            bits == self.bits,
    {
        self.bits
    }

    /// The floating-point comparison `self <= other`.
    pub fn is_le(self, other: Scalar) -> (le: bool)
        ensures
            le == self.le(other),
    {
        let this = self.bits % 0x8000_0000;
        let that = other.bits % 0x8000_0000;
        if this > 0x7f80_0000 || that > 0x7f80_0000 {
            return false;
        }
        let this: i64 = if self.bits >= 0x8000_0000 {
            -(this as i64)
        } else {
            this as i64
        };
        let that: i64 = if other.bits >= 0x8000_0000 {
            -(that as i64)
        } else {
            that as i64
        };
        proof {
            lemma_magnitude_follows_bits(self, other);
            lemma_magnitude_follows_bits(other, self);
            lemma_zero_magnitude(self);
            lemma_zero_magnitude(other);
        }
        this <= that
    }

    /// Euclidean division by `GRID_SIZE`, converted to an integer the way a
    /// saturating cast does it.
    pub fn div_euclid_grid(self) -> (index: i32)
        ensures
            index == self.grid_index(),
    {
        let negative = self.bits >= 0x8000_0000;
        let exponent: u32 = (self.bits / 0x80_0000) % 0x100;
        let fraction: u32 = self.bits % 0x80_0000;
        if exponent == 255 && fraction != 0 {
            return 0;
        }
        let significand: i64 = if exponent == 0 {
            fraction as i64
        } else {
            fraction as i64 + 0x80_0000
        };
        let scale: u32 = if exponent == 0 {
            0
        } else {
            exponent - 1
        };
        proof {
            lemma_grid_divisor();
            lemma_pow2_pos(self.scale());
        }
        if scale >= 154 {
            let up: u32 = scale - 154;
            proof {
                lemma_quotient_of_large(significand as nat, scale as nat);
            }
            if up >= 8 {
                proof {
                    lemma_pow2_at_least(8, up as nat);
                    lemma2_to64();
                    lemma_mul_inequality(0x100, pow2(up as nat) as int, 0x80_0000);
                    lemma_mul_inequality(0x80_0000, significand as int, pow2(up as nat) as int);
                }
                if negative {
                    i32::MIN
                } else {
                    i32::MAX
                }
            } else {
                let factor = pow2_exec(up);
                proof {
                    lemma_pow2_at_least(up as nat, 7);
                    lemma2_to64();
                    lemma_mul_upper_bound(significand as int, 0xff_ffff, factor as int, 0x80);
                    lemma_mul_nonnegative(significand as int, factor as int);
                }
                let quotient: i64 = significand * factor;
                if negative {
                    (-quotient) as i32
                } else {
                    quotient as i32
                }
            }
        } else {
            let down: u32 = 154 - scale;
            proof {
                lemma_quotient_of_small(significand as nat, scale as nat);
            }
            if down >= 24 {
                proof {
                    lemma_pow2_at_least(24, down as nat);
                    lemma2_to64();
                    lemma_basic_div(significand as int, pow2(down as nat) as int);
                    lemma_small_mod(significand as nat, pow2(down as nat));
                }
                if negative && significand != 0 {
                    -1
                } else {
                    0
                }
            } else {
                let divisor = pow2_exec(down);
                proof {
                    lemma_pow2_pos(down as nat);
                    lemma_div_bounds(significand as int, divisor as int);
                }
                let quotient: i64 = significand / divisor;
                let remainder: i64 = significand % divisor;
                if negative {
                    if remainder != 0 {
                        (-quotient - 1) as i32
                    } else {
                        (-quotient) as i32
                    }
                } else {
                    quotient as i32
                }
            }
        }
    }
}

/// `2^exponent` as a machine integer.
fn pow2_exec(exponent: u32) -> (power: i64)
    requires
        exponent < 62,
    ensures
        power == pow2(exponent as nat),
        0 < power,
{
    let mut power: i64 = 1;
    let mut i: u32 = 0;
    proof {
        lemma2_to64();
    }
    while i < exponent
        invariant
            i <= exponent < 62,
            power == pow2(i as nat),
            0 < power,
        decreases exponent - i,
    {
        proof {
            lemma_pow2_unfold((i + 1) as nat);
            lemma_pow2_at_least((i + 1) as nat, 62);
            lemma2_to64_rest();
        }
        power = power * 2;
        i = i + 1;
    }
    power
}

/// Powers of two grow with the exponent.
proof fn lemma_pow2_at_least(low: nat, high: nat)
    requires
        low <= high,
    ensures
        pow2(low) <= pow2(high),
{
    if low < high {
        lemma_pow2_strictly_increases(low, high);
    }
}

/// A quotient lies between zero and its dividend.
proof fn lemma_div_bounds(x: int, d: int)
    requires
        0 <= x,
        0 < d,
    ensures
        0 <= x / d <= x,
        0 <= x % d < d,
{
    lemma_div_pos_is_pos(x, d);
    lemma_div_is_ordered_by_denominator(x, 1, d);
    lemma_mod_bound(x, d);
}

/// The width of a cell in units of 2^-149 is 2^154.
proof fn lemma_grid_divisor()
    ensures
        GRID_SIZE * pow2(149) == pow2(154),
        pow2(154) > 0,
{
    lemma2_to64();
    lemma_pow2_adds(5, 149);
    lemma_pow2_pos(154);
}

/// Dividing a magnitude of at least one cell width is exact.
proof fn lemma_quotient_of_large(significand: nat, scale: nat)
    requires
        scale >= 154,
    ensures
        (significand * pow2(scale)) as int / (pow2(154) as int) == significand * pow2(
            (scale - 154) as nat,
        ),
        (-((significand * pow2(scale)) as int)) / (pow2(154) as int) == -((significand * pow2(
            (scale - 154) as nat,
        )) as int),
{
    let up = (scale - 154) as nat;
    let q = (significand * pow2(up)) as int;
    let d = pow2(154) as int;
    lemma_pow2_pos(154);
    lemma_pow2_adds(up, 154);
    assert(significand * pow2(scale) == q * d) by {
        lemma_mul_is_associative(significand as int, pow2(up) as int, d);
    }
    lemma_fundamental_div_mod_converse(q * d, d, q, 0);
    assert(-(q * d) == (-q) * d) by {
        lemma_mul_unary_negation(q, d);
    }
    lemma_fundamental_div_mod_converse((-q) * d, d, -q, 0);
}

/// Dividing a magnitude below one cell width shifts the significand down;
/// a negative value rounds toward negative infinity.
proof fn lemma_quotient_of_small(significand: nat, scale: nat)
    requires
        scale < 154,
    ensures
        ({
            let p = pow2((154 - scale) as nat) as int;
            let x = (significand * pow2(scale)) as int;
            let d = pow2(154) as int;
            &&& x / d == significand as int / p
            &&& (-x) / d == if significand as int % p == 0 {
                -(significand as int / p)
            } else {
                -(significand as int / p) - 1
            }
        }),
{
    let down = (154 - scale) as nat;
    let p = pow2(down) as int;
    let k = pow2(scale) as int;
    let m = significand as int;
    let x = m * k;
    let d = pow2(154) as int;
    lemma_pow2_pos(down);
    lemma_pow2_pos(scale);
    lemma_pow2_adds(scale, down);
    assert(d == k * p);
    let q = m / p;
    let r = m % p;
    lemma_fundamental_div_mod(m, p);
    lemma_mod_bound(m, p);
    assert(m == p * q + r);
    // x == q * d + r * k, with 0 <= r * k < d
    assert(x == q * d + r * k) by (nonlinear_arith)
        requires
            x == m * k,
            m == p * q + r,
            d == k * p,
    ;
    assert(0 <= r * k < d) by (nonlinear_arith)
        requires
            0 <= r < p,
            0 < k,
            d == k * p,
    ;
    lemma_fundamental_div_mod_converse(x, d, q, r * k);
    if r == 0 {
        assert(-x == (-q) * d + 0) by (nonlinear_arith)
            requires
                x == q * d + r * k,
                r == 0,
        ;
        lemma_fundamental_div_mod_converse(-x, d, -q, 0);
    } else {
        assert(-x == (-q - 1) * d + (d - r * k)) by (nonlinear_arith)
            requires
                x == q * d + r * k,
        ;
        assert(0 <= d - r * k < d) by (nonlinear_arith)
            requires
                0 < r < p,
                0 < k,
                d == k * p,
        ;
        lemma_fundamental_div_mod_converse(-x, d, -q - 1, d - r * k);
    }
}

/// The magnitude follows the pattern without its sign: of two patterns, the
/// one that is smaller as an integer has the smaller magnitude.
pub proof fn lemma_magnitude_follows_bits(a: Scalar, b: Scalar)
    ensures
        a.magnitude_bits() < b.magnitude_bits() ==> a.magnitude() < b.magnitude(),
        a.magnitude_bits() == b.magnitude_bits() ==> a.magnitude() == b.magnitude(),
{
    assert(a.magnitude_bits() == a.exponent() * 0x80_0000 + a.fraction());
    assert(b.magnitude_bits() == b.exponent() * 0x80_0000 + b.fraction());
    lemma_pow2_pos(a.scale());
    lemma_pow2_pos(b.scale());
    if a.magnitude_bits() < b.magnitude_bits() {
        if a.exponent() == b.exponent() {
            lemma_mul_strict_inequality(
                a.significand() as int,
                b.significand() as int,
                pow2(a.scale()) as int,
            );
        } else {
            assert(a.exponent() < b.exponent());
            if a.exponent() == 0 {
                assert(pow2(0) == 1) by {
                    lemma2_to64();
                }
                assert(a.magnitude() < 0x80_0000) by (nonlinear_arith)
                    requires
                        a.magnitude() == a.significand() * pow2(a.scale()),
                        a.significand() < 0x80_0000,
                        pow2(a.scale()) == 1,
                ;
                assert(0x80_0000 <= b.magnitude()) by (nonlinear_arith)
                    requires
                        b.magnitude() == b.significand() * pow2(b.scale()),
                        b.significand() >= 0x80_0000,
                        0 < pow2(b.scale()),
                ;
                return ;
            }
            // magnitude(a) < 2^23 * 2^(scale(a) + 1) <= 2^23 * 2^scale(b) <= magnitude(b)
            let step = pow2(a.scale() + 1) as int;
            lemma_pow2_unfold(a.scale() + 1);
            lemma_pow2_at_least(a.scale() + 1, b.scale());
            assert(a.magnitude() < 0x80_0000 * step) by (nonlinear_arith)
                requires
                    a.magnitude() == a.significand() * pow2(a.scale()),
                    a.significand() < 0x100_0000,
                    step == 2 * pow2(a.scale()),
                    pow2(a.scale()) > 0,
            ;
            assert(0x80_0000 * step <= b.magnitude()) by (nonlinear_arith)
                requires
                    b.magnitude() == b.significand() * pow2(b.scale()),
                    b.significand() >= 0x80_0000,
                    0 < step <= pow2(b.scale()),
            ;
        }
    }
}

/// The two zeros, and no other patterns, have magnitude zero.
pub proof fn lemma_zero_magnitude(a: Scalar)
    ensures
        a.magnitude() == 0 <==> a.magnitude_bits() == 0,
{
    lemma_pow2_pos(a.scale());
    assert(a.magnitude_bits() == a.exponent() * 0x80_0000 + a.fraction());
    assert(a.magnitude() == 0 <==> a.significand() == 0) by (nonlinear_arith)
        requires
            a.magnitude() == a.significand() * pow2(a.scale()),
            pow2(a.scale()) > 0,
    ;
}

/// The law that the grid index is the floor of the quotient: where it is
/// not at a limit of `i32`, the coordinate lies in the cell of that index,
/// from its lower bound up to, but not including, the lower bound of the
/// next cell.
pub proof fn lemma_grid_index_is_the_floor(a: Scalar)
    requires
        !a.is_nan(),
        i32::MIN < a.grid_index() < i32::MAX,
    ensures
        a.grid_index() * (GRID_SIZE * pow2(149)) <= a.units(),
        a.units() < (a.grid_index() + 1) * (GRID_SIZE * pow2(149)),
{
    lemma_grid_divisor();
    let width = pow2(154) as int;
    lemma_fundamental_div_mod(a.units(), width);
    lemma_mod_bound(a.units(), width);
    assert((a.grid_index() + 1) * width == a.grid_index() * width + width) by (nonlinear_arith);
    assert(a.grid_index() * width == width * a.grid_index()) by (nonlinear_arith);
}

/// The law that the grid index never decreases as the coordinate grows.
pub proof fn lemma_grid_index_is_monotonic(a: Scalar, b: Scalar)
    requires
        a.le(b),
    ensures
        a.grid_index() <= b.grid_index(),
{
    lemma_grid_divisor();
    lemma_div_is_ordered(a.units(), b.units(), pow2(154) as int);
}

} // verus!
