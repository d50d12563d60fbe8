//! Binary floating point numbers of the 64-bit interchange format, as integers.
//!
//! Capture times are fractions of a second, and every comparison that the
//! analyser makes on them is a comparison of 64-bit binary floating point
//! numbers. A number is held here as a sign, a significand and an exponent, so
//! that each operation can be stated over the integers: a finite number of the
//! format is a whole multiple of `2^-1074`, and that multiple is what
//! [`Binary64::units`] gives.

use vstd::arithmetic::div_mod::*;
use vstd::arithmetic::mul::*;
use vstd::arithmetic::power2::*;
use vstd::prelude::*;
use vstd::string::*;

use crate::text;

verus! {

/// How many units, multiples of `2^-1074`, make one: `2^UNIT_BITS`.
pub const UNIT_BITS: u32 = 1074;

/// `2^52`, the least significand of a number that is not subnormal.
pub const MIN_NORMAL: u64 = 0x10_0000_0000_0000;

/// `2^53`, above every significand.
pub const SIGNIFICAND_END: u64 = 0x20_0000_0000_0000;

/// A finite number of the 64-bit binary format:
/// `significand * 2^(exponent - 1074)`, with a sign.
#[derive(Debug, Clone, Copy, PartialEq, Eq, Structural)]
pub struct Binary64 {
    pub negative: bool,
    pub significand: u64,
    pub exponent: u32,
}

/// `a / b` rounded to a whole number, a half going to the even neighbour.
pub open spec fn half_even(a: nat, b: nat) -> nat {
    let q = a / b;
    let r = a % b;
    if 2 * r < b || (2 * r == b && q % 2 == 0) {
        q
    } else {
        q + 1
    }
}

/// The exponent of the last place that a number of `q` units (and a fraction)
/// has in the format: halving `q` that often leaves less than `2^53`.
pub open spec fn last_place(q: nat) -> nat
    decreases q,
{
    if q < SIGNIFICAND_END {
        0
    } else {
        1 + last_place(q / 2)
    }
}

/// The number of the format nearest to `a / b` units, a tie going to the even
/// significand.
pub open spec fn nearest_magnitude(a: nat, b: nat) -> nat {
    let place = last_place(a / b);
    half_even(a, b * pow2(place)) * pow2(place)
}

/// As [`nearest_magnitude`], for a number with a sign.
pub open spec fn nearest(a: int, b: nat) -> int {
    if a < 0 {
        -(nearest_magnitude((-a) as nat, b) as int)
    } else {
        nearest_magnitude(a as nat, b) as int
    }
}

/// A number of units rounded to a whole number, in decimal digits. A negative
/// number keeps its sign, also where it rounds to zero.
pub open spec fn whole_text(units: int) -> Seq<char> {
    if units < 0 {
        "-"@ + text::decimal(half_even((-units) as nat, pow2(UNIT_BITS as nat)))
    } else {
        text::decimal(half_even(units as nat, pow2(UNIT_BITS as nat)))
    }
}

impl Binary64 {
    /// The number of units without its sign.
    pub open spec fn magnitude(self) -> nat {
        self.significand as nat * pow2(self.exponent as nat)
    }

    /// The value, in units of `2^-1074`.
    pub open spec fn units(self) -> int {
        if self.negative {
            -(self.magnitude() as int)
        } else {
            self.magnitude() as int
        }
    }

    /// Each value has one form: the significand is as long as the format allows
    /// and zero has no sign.
    pub open spec fn wf(self) -> bool {
        &&& self.significand < SIGNIFICAND_END
        &&& self.exponent > 0 ==> self.significand >= MIN_NORMAL
        &&& self.significand == 0 ==> !self.negative
    }

    /// Zero, or a number without places below `2^e` units.
    pub open spec fn without_places_below(self, e: int) -> bool {
        self.significand == 0 || self.exponent >= e
    }
}

/// A place fits a count of units when the count is as long as a significand.
proof fn lemma_last_place(q: nat, place: nat)
    requires
        q < SIGNIFICAND_END * pow2(place),
        place > 0 ==> q >= MIN_NORMAL * pow2(place),
    ensures
        last_place(q) == place,
    decreases place,
{
    lemma_pow2_pos(place);
    if place == 0 {
        lemma2_to64();
    } else {
        let half = (place - 1) as nat;
        lemma_pow2_unfold(place);
        lemma_pow2_pos(half);
        assert(q < 2 * (SIGNIFICAND_END * pow2(half)) && q >= 2 * (MIN_NORMAL * pow2(half)))
            by (nonlinear_arith)
            requires
                q < SIGNIFICAND_END * pow2(place),
                q >= MIN_NORMAL * pow2(place),
                pow2(place) == 2 * pow2(half),
        ;
        assert(q >= SIGNIFICAND_END) by (nonlinear_arith)
            requires
                q >= 2 * (MIN_NORMAL * pow2(half)),
                pow2(half) >= 1,
                SIGNIFICAND_END == 2 * MIN_NORMAL,
        ;
        lemma_last_place(q / 2, half);
    }
}

/// Rounding a fraction does not depend on a common factor.
proof fn lemma_half_even_scale(a: nat, b: nat, c: nat)
    requires
        b > 0,
        c > 0,
    ensures
        half_even(a * c, b * c) == half_even(a, b),
{
    let q = (a / b) as int;
    let r = (a % b) as int;
    lemma_fundamental_div_mod(a as int, b as int);
    assert(a * c == q * (b * c) + r * c && 0 <= r * c < b * c) by (nonlinear_arith)
        requires
            a == b * q + r,
            0 <= r < b,
            c > 0,
    ;
    lemma_fundamental_div_mod_converse((a * c) as int, (b * c) as int, q, r * c);
    assert((2 * r < b) == (2 * (r * c) < b * c)) by (nonlinear_arith)
        requires
            c > 0,
    ;
    assert((2 * r == b) == (2 * (r * c) == b * c)) by (nonlinear_arith)
        requires
            c > 0,
    ;
}

/// A rounding in units of `2^shift` last places, after both sides have been
/// scaled by `2^exponent`.
proof fn lemma_nearest_scaled(n: nat, d: nat, exponent: nat, shift: nat)
    requires
        d > 0,
        n < SIGNIFICAND_END * (d * pow2(shift)),
        exponent + shift > 0 ==> n >= MIN_NORMAL * (d * pow2(shift)),
    ensures
        nearest_magnitude(n * pow2(exponent), d) == half_even(n, d * pow2(shift)) * pow2(
            exponent + shift,
        ),
{
    let e = pow2(exponent);
    let a = n * e;
    let place = exponent + shift;
    lemma_pow2_pos(exponent);
    lemma_pow2_pos(shift);
    lemma_pow2_adds(exponent, shift);
    let q = a / d;
    lemma_fundamental_div_mod(a as int, d as int);
    assert(q < SIGNIFICAND_END * pow2(place)) by (nonlinear_arith)
        requires
            n < SIGNIFICAND_END * (d * pow2(shift)),
            a == n * e,
            a == d * q + a % d,
            a % d >= 0,
            pow2(place) == e * pow2(shift),
            d > 0,
            e > 0,
    ;
    if place > 0 {
        assert(q >= MIN_NORMAL * pow2(place)) by (nonlinear_arith)
            requires
                n >= MIN_NORMAL * (d * pow2(shift)),
                a == n * e,
                a == d * q + a % d,
                a % d < d,
                pow2(place) == e * pow2(shift),
                d > 0,
                e > 0,
        ;
    }
    lemma_last_place(q, place);
    assert(d * pow2(place) == (d * pow2(shift)) * e) by (nonlinear_arith)
        requires
            pow2(place) == e * pow2(shift),
    ;
    assert(d * pow2(shift) > 0) by (nonlinear_arith)
        requires
            d > 0,
            pow2(shift) > 0,
    ;
    lemma_half_even_scale(n, d * pow2(shift), e);
}

/// Bound of what [`normalize`] rounds: `2^114`.
const NUMERATOR_END: u128 = 0x4_0000_0000_0000_0000_0000_0000_0000;

/// The significand and the exponent of the number nearest to
/// `n / d * 2^exponent` units.
fn normalize(n: u128, d: u128, exponent: u32) -> (r: (u64, u32))
    requires
        0 < d <= 1_000_000,
        d == 1 || n >= MIN_NORMAL * d,
        n < NUMERATOR_END,
        exponent <= 10_000,
    ensures
        r.0 < SIGNIFICAND_END,
        r.1 > 0 ==> r.0 >= MIN_NORMAL,
        r.0 as nat * pow2(r.1 as nat) == nearest_magnitude(n as nat * pow2(exponent as nat), d as nat),
        r.0 == 0 <==> n == 0,
        r.1 <= exponent + 63,
        n != 0 ==> r.1 + 52 >= exponent,
        n >= MIN_NORMAL * d ==> r.1 >= exponent,
{
    if n < MIN_NORMAL as u128 * d {
        let mut m: u64 = n as u64;
        let mut e: u32 = exponent;
        proof {
            lemma2_to64();
            lemma_mul_basics_3(n as int);
        }
        if n == 0 {
            e = 0;
            proof {
                lemma_mul_basics_1(pow2(0) as int);
                lemma_mul_basics_1(pow2(exponent as nat) as int);
            }
        }
        while m < MIN_NORMAL && e > 0
            invariant
                m < SIGNIFICAND_END,
                e <= exponent,
                m == 0 <==> n == 0,
                m == 0 ==> e == 0,
                n != 0 ==> m as nat == n as nat * pow2((exponent - e) as nat),
                m as nat * pow2(e as nat) == n as nat * pow2(exponent as nat),
            decreases e,
        {
            proof {
                lemma_pow2_unfold((exponent - e + 1) as nat);
                assert(n as nat * pow2((exponent - e + 1) as nat) == 2 * (n as nat * pow2(
                    (exponent - e) as nat,
                ))) by (nonlinear_arith)
                    requires
                        pow2((exponent - e + 1) as nat) == 2 * pow2((exponent - e) as nat),
                ;
                lemma_pow2_unfold(e as nat);
                assert(m as nat * pow2(e as nat) == (2 * m) as nat * pow2((e - 1) as nat))
                    by (nonlinear_arith)
                    requires
                        pow2(e as nat) == 2 * pow2((e - 1) as nat),
                ;
            }
            m = m * 2;
            e = e - 1;
        }
        proof {
            lemma2_to64();
            lemma2_to64_rest();
            if n != 0 && exponent - e > 52 {
                let shift = (exponent - e) as nat;
                if shift > 53 {
                    lemma_pow2_strictly_increases(53, shift);
                }
                assert(n as nat * pow2(shift) >= pow2(shift)) by (nonlinear_arith)
                    requires
                        n >= 1,
                ;
            }
            lemma_nearest_scaled(m as nat, 1, e as nat, 0);
            assert(half_even(m as nat, 1 * pow2(0)) == m);
        }
        (m, e)
    } else {
        let mut den: u128 = d;
        let mut shift: u32 = 0;
        proof {
            lemma2_to64();
        }
        while n / den >= SIGNIFICAND_END as u128
            invariant
                0 < d <= 1_000_000,
                den == d as nat * pow2(shift as nat),
                den > 0,
                n >= MIN_NORMAL * den,
                n < NUMERATOR_END,
                shift <= 62,
                den >= pow2(shift as nat),
            decreases n - den,
        {
            assert(n >= SIGNIFICAND_END * den) by (nonlinear_arith)
                requires
                    n / den >= SIGNIFICAND_END,
                    den > 0,
            ;
            proof {
                lemma_pow2_unfold((shift + 1) as nat);
                assert(d as nat * pow2((shift + 1) as nat) == 2 * (d as nat * pow2(shift as nat)))
                    by (nonlinear_arith)
                    requires
                        pow2((shift + 1) as nat) == 2 * pow2(shift as nat),
                ;
                if shift >= 62 {
                    lemma_pow2_strictly_increases(61, shift as nat);
                    lemma2_to64_rest();
                }
            }
            den = den * 2;
            shift = shift + 1;
        }
        assert(n < SIGNIFICAND_END * den) by (nonlinear_arith)
            requires
                n / den < SIGNIFICAND_END,
                den > 0,
        ;
        let quotient: u128 = n / den;
        let rest: u128 = n % den;
        assert(quotient >= MIN_NORMAL) by (nonlinear_arith)
            requires
                n >= MIN_NORMAL * den,
                den > 0,
                quotient == n / den,
        ;
        let down: bool = 2 * rest < den || (2 * rest == den && quotient % 2 == 0);
        let m: u64 = if down { quotient as u64 } else { quotient as u64 + 1 };
        let place: u32 = exponent + shift;
        proof {
            lemma_nearest_scaled(n as nat, d as nat, exponent as nat, shift as nat);
            assert(m == half_even(n as nat, den as nat));
        }
        if m == SIGNIFICAND_END {
            proof {
                lemma_pow2_unfold((place + 1) as nat);
                assert(MIN_NORMAL as nat * pow2((place + 1) as nat) == m as nat * pow2(place as nat))
                    by (nonlinear_arith)
                    requires
                        pow2((place + 1) as nat) == 2 * pow2(place as nat),
                        m == 2 * MIN_NORMAL,
                ;
            }
            (MIN_NORMAL, place + 1)
        } else {
            (m, place)
        }
    }
}

/// A number that the format holds is its own nearest number.
pub proof fn lemma_nearest_exact(m: nat, exponent: nat)
    requires
        m < SIGNIFICAND_END,
    ensures
        nearest_magnitude(m * pow2(exponent), 1) == m * pow2(exponent),
    decreases exponent,
{
    lemma2_to64();
    if m >= MIN_NORMAL || exponent == 0 {
        lemma_nearest_scaled(m, 1, exponent, 0);
        assert(half_even(m, 1 * pow2(0)) == m);
    } else {
        let half = (exponent - 1) as nat;
        lemma_pow2_unfold(exponent);
        assert(m * pow2(exponent) == (2 * m) * pow2(half)) by (nonlinear_arith)
            requires
                pow2(exponent) == 2 * pow2(half),
        ;
        lemma_nearest_exact(2 * m, half);
    }
}

/// What is less than a quarter of the last place is lost in a sum.
proof fn lemma_nearest_absorbs(m: nat, exponent: nat, delta: int)
    requires
        MIN_NORMAL <= m < SIGNIFICAND_END,
        exponent >= 2,
        -pow2((exponent - 2) as nat) < delta < pow2((exponent - 2) as nat),
    ensures
        m * pow2(exponent) + delta > 0,
        nearest_magnitude((m * pow2(exponent) + delta) as nat, 1) == m * pow2(exponent),
{
    let unit = pow2(exponent) as int;
    let half = pow2((exponent - 1) as nat) as int;
    lemma_pow2_unfold(exponent);
    lemma_pow2_unfold((exponent - 1) as nat);
    lemma_pow2_pos((exponent - 2) as nat);
    let x = m * unit + delta;
    assert(x > 0 && x < SIGNIFICAND_END * unit) by (nonlinear_arith)
        requires
            x == m * unit + delta,
            1 <= m,
            m + 1 <= SIGNIFICAND_END,
            -unit < delta < unit,
    ;
    assert(x / 1 == x);
    if delta >= 0 {
        assert(x >= MIN_NORMAL * unit) by (nonlinear_arith)
            requires
                x == m * unit + delta,
                m >= MIN_NORMAL,
                delta >= 0,
                unit > 0,
        ;
        lemma_last_place(x as nat, exponent);
        lemma_fundamental_div_mod_converse(x, unit, m as int, delta);
    } else if m > MIN_NORMAL {
        assert(x >= MIN_NORMAL * unit && x == (m - 1) * unit + (unit + delta)) by (nonlinear_arith)
            requires
                x == m * unit + delta,
                m >= MIN_NORMAL + 1,
                -unit < delta,
                unit > 0,
        ;
        lemma_last_place(x as nat, exponent);
        lemma_fundamental_div_mod_converse(x, unit, m - 1, unit + delta);
    } else {
        assert(x == (2 * m - 1) * half + (half + delta) && x < SIGNIFICAND_END * half && x
            >= MIN_NORMAL * half && m * unit == (2 * m) * half) by (nonlinear_arith)
            requires
                x == m * unit + delta,
                m == MIN_NORMAL,
                SIGNIFICAND_END == 2 * MIN_NORMAL,
                unit == 2 * half,
                -half < delta < 0,
                half > 0,
        ;
        lemma_last_place(x as nat, (exponent - 1) as nat);
        lemma_fundamental_div_mod_converse(x, half, 2 * m - 1, half + delta);
    }
}

/// Zero is the only number without units.
proof fn lemma_magnitude_zero(x: Binary64)
    ensures
        x.magnitude() == 0 <==> x.significand == 0,
{
    lemma_pow2_pos(x.exponent as nat);
    assert(x.significand as nat * pow2(x.exponent as nat) == 0 <==> x.significand == 0)
        by (nonlinear_arith)
        requires
            pow2(x.exponent as nat) > 0,
    ;
}

/// Zero is rounded to zero.
pub proof fn lemma_nearest_zero(b: nat)
    requires
        b > 0,
    ensures
        nearest(0, b) == 0,
{
    lemma2_to64();
    lemma_mul_basics_3(b as int);
    assert(0nat / b == 0 && 0nat % b == 0) by (nonlinear_arith)
        requires
            b > 0,
    ;
    assert(b * pow2(0) == b);
    assert(half_even(0, b) == 0);
    assert(last_place(0nat / b) == 0);
    lemma_mul_basics_1(pow2(0) as int);
    assert(nearest_magnitude(0, b) == 0);
}

/// A factor that a whole number of units shares with the divisor drops out.
pub proof fn lemma_nearest_common_factor(x: nat, c: nat)
    requires
        c > 0,
    ensures
        nearest_magnitude(x * c, c) == nearest_magnitude(x, 1),
{
    lemma_div_by_multiple(x as int, c as int);
    let place = last_place(x);
    lemma_pow2_pos(place);
    lemma_half_even_scale(x, pow2(place), c);
    lemma_mul_is_commutative(c as int, pow2(place) as int);
}

/// Rounding to the format at most doubles a number, but for less than one unit.
pub proof fn lemma_nearest_bound(a: nat, b: nat)
    requires
        b > 0,
    ensures
        nearest_magnitude(a, b) <= 2 * (a / b) + 1,
{
    let q = a / b;
    let place = last_place(q);
    let p = pow2(place);
    lemma_pow2_pos(place);
    lemma_last_place_fits(q);
    lemma_div_denominator(a as int, b as int, p as int);
    let h = half_even(a, b * p);
    lemma_fundamental_div_mod(q as int, p as int);
    if place == 0 {
        lemma2_to64();
        lemma_mul_basics_3(h as int);
    } else {
        assert(h * p <= 2 * q) by (nonlinear_arith)
            requires
                h <= q / p + 1,
                q == p * (q / p) + q % p,
                0 <= q % p,
                q >= MIN_NORMAL * p,
                p > 0,
                MIN_NORMAL >= 1,
        ;
    }
}

/// The last place of a number is one that fits it.
proof fn lemma_last_place_fits(q: nat)
    ensures
        q < SIGNIFICAND_END * pow2(last_place(q)),
        last_place(q) > 0 ==> q >= MIN_NORMAL * pow2(last_place(q)),
    decreases q,
{
    lemma2_to64();
    if q >= SIGNIFICAND_END {
        let place = last_place(q);
        let half = last_place(q / 2);
        lemma_last_place_fits(q / 2);
        lemma_pow2_unfold(place);
        lemma_pow2_pos(half);
        assert(q < SIGNIFICAND_END * pow2(place)) by (nonlinear_arith)
            requires
                q / 2 + 1 <= SIGNIFICAND_END * pow2(half),
                pow2(place) == 2 * pow2(half),
        ;
        if half > 0 {
            assert(q >= MIN_NORMAL * pow2(place)) by (nonlinear_arith)
                requires
                    q / 2 >= MIN_NORMAL * pow2(half),
                    pow2(place) == 2 * pow2(half),
            ;
        }
    }
}

/// A number below `2^(k + 52)` units has no exponent above `k`.
pub proof fn lemma_exponent_bound(x: Binary64, k: nat)
    requires
        x.wf(),
        x.magnitude() < MIN_NORMAL * pow2(k),
    ensures
        x.exponent <= k,
{
    if x.exponent > k {
        lemma_pow2_strictly_increases(k, x.exponent as nat);
        assert(x.significand * pow2(x.exponent as nat) >= MIN_NORMAL * pow2(k)) by (nonlinear_arith)
            requires
                x.significand >= MIN_NORMAL,
                pow2(x.exponent as nat) >= pow2(k),
        ;
    }
}

/// Of two magnitudes the one with the greater exponent is the greater, and with
/// one exponent the one with the greater significand.
proof fn lemma_magnitude_order(a: Binary64, b: Binary64)
    requires
        a.wf(),
        b.wf(),
    ensures
        a.exponent < b.exponent ==> a.magnitude() < b.magnitude(),
        a.exponent == b.exponent ==> (a.significand < b.significand <==> a.magnitude()
            < b.magnitude()),
{
    let ap = pow2(a.exponent as nat);
    let bp = pow2(b.exponent as nat);
    lemma_pow2_pos(a.exponent as nat);
    if a.exponent < b.exponent {
        let gap = (b.exponent - a.exponent) as nat;
        lemma_pow2_adds(a.exponent as nat, gap);
        lemma_pow2_unfold(gap);
        lemma_pow2_pos((gap - 1) as nat);
        assert(a.significand * ap < b.significand * bp) by (nonlinear_arith)
            requires
                a.significand < 2 * MIN_NORMAL,
                b.significand >= MIN_NORMAL,
                bp == ap * pow2(gap),
                pow2(gap) >= 2,
                ap > 0,
        ;
    } else if a.exponent == b.exponent {
        assert((a.significand * ap < b.significand * ap) == (a.significand < b.significand))
            by (nonlinear_arith)
            requires
                ap > 0,
        ;
    }
}

impl Binary64 {
    /// The number with `n / d` for its value, rounded to the format.
    pub fn from_ratio(n: u32, d: u32) -> (r: Binary64)
        requires
            0 < d <= 1_000_000,
        ensures
            r.wf(),
            r.units() == nearest(n * pow2(UNIT_BITS as nat), d as nat),
            r.exponent <= 1106,
            r.without_places_below(1002),
    {
        if n == 0 {
            proof {
                lemma_mul_basics_1(pow2(UNIT_BITS as nat) as int);
                lemma_nearest_zero(d as nat);
            }
            return Binary64 { negative: false, significand: 0, exponent: 0 };
        }
        let scale: u128 = 0x100_0000_0000_0000_0000;
        let (significand, exponent) = normalize(n as u128 * scale, d as u128, 1002);
        proof {
            lemma_pow2_adds(72, 1002);
            lemma_pow2_adds(64, 8);
            lemma2_to64();
            lemma2_to64_rest();
            assert(n as nat * pow2(1074) == (n as nat * scale as nat) * pow2(1002)) by (nonlinear_arith)
                requires
                    pow2(1074) == pow2(72) * pow2(1002),
                    pow2(72) == scale,
            ;
            lemma_magnitude_zero(Binary64 { negative: false, significand, exponent });
        }
        Binary64 { negative: false, significand, exponent }
    }

    /// The number `n`.
    pub fn from_u32(n: u32) -> (r: Binary64)
        ensures
            r.wf(),
            r.units() == n * pow2(UNIT_BITS as nat),
            r.exponent <= 1106,
            r.without_places_below(1002),
    {
        proof {
            lemma_nearest_exact(n as nat, UNIT_BITS as nat);
        }
        Binary64::from_ratio(n, 1)
    }

    /// The number `n / 256`.
    pub fn from_256ths(n: u16) -> (r: Binary64)
        ensures
            r.wf(),
            r.units() * 256 == n * pow2(UNIT_BITS as nat),
            r.exponent <= 1106,
    {
        proof {
            let x = n as nat * pow2(1066);
            lemma_pow2_adds(8, 1066);
            lemma2_to64();
            assert(n as nat * pow2(UNIT_BITS as nat) == x * 256) by (nonlinear_arith)
                requires
                    x == n as nat * pow2(1066),
                    pow2(UNIT_BITS as nat) == 256 * pow2(1066),
            ;
            lemma_nearest_common_factor(x, 256);
            lemma_nearest_exact(n as nat, 1066);
        }
        Binary64::from_ratio(n as u32, 256)
    }

    /// The number with the other sign.
    fn negated(self) -> (r: Binary64)
        requires
            self.wf(),
        ensures
            r.wf(),
            r.units() == -self.units(),
            r.exponent == self.exponent,
            r.significand == self.significand,
    {
        proof {
            lemma_magnitude_zero(self);
        }
        Binary64 { negative: self.significand != 0 && !self.negative, ..self }
    }

    /// The sum where `self` has the last place that counts more.
    fn plus_smaller(self, other: Binary64) -> (r: Binary64)
        requires
            self.wf(),
            other.wf(),
            self.significand != 0,
            other.exponent <= self.exponent <= 5_000,
        ensures
            r.wf(),
            r.units() == nearest(self.units() + other.units(), 1),
            r.exponent <= self.exponent + 63,
            r.without_places_below(other.exponent - 52),
    {
        let distance: u32 = self.exponent - other.exponent;
        let ghost low = pow2(other.exponent as nat);
        proof {
            lemma_magnitude_zero(self);
            lemma_pow2_pos(other.exponent as nat);
            lemma_pow2_adds(other.exponent as nat, distance as nat);
        }
        if distance > 60 {
            proof {
                let e = self.exponent as nat;
                lemma_pow2_adds(53, other.exponent as nat);
                lemma2_to64();
                lemma2_to64_rest();
                assert(other.magnitude() < pow2(53 + other.exponent as nat)) by (nonlinear_arith)
                    requires
                        other.magnitude() == other.significand * low,
                        other.significand < SIGNIFICAND_END,
                        pow2(53 + other.exponent as nat) == SIGNIFICAND_END * low,
                        low > 0,
                ;
                lemma_pow2_strictly_increases(53 + other.exponent as nat, (e - 2) as nat);
                let delta = if self.negative { -other.units() } else { other.units() };
                lemma_nearest_absorbs(self.significand as nat, e, delta);
            }
            return self;
        }
        proof {
            lemma2_to64();
            lemma2_to64_rest();
            if distance < 60 {
                lemma_pow2_strictly_increases(distance as nat, 60);
            }
            vstd::bits::lemma_u64_shl_is_mul(1, distance as u64);
        }
        let scale: u128 = (1u64 << (distance as u64)) as u128;
        assert(self.significand * scale <= 0x20_0000_0000_0000 * 0x1000_0000_0000_0000)
            by (nonlinear_arith)
            requires
                self.significand < SIGNIFICAND_END,
                scale <= 0x1000_0000_0000_0000,
        ;
        let a: u128 = self.significand as u128 * scale;
        let b: u128 = other.significand as u128;
        proof {
            assert(self.magnitude() == a * low && other.magnitude() == b * low) by (nonlinear_arith)
                requires
                    self.magnitude() == self.significand * pow2(self.exponent as nat),
                    other.magnitude() == other.significand * low,
                    a == self.significand * scale,
                    b == other.significand,
                    pow2(self.exponent as nat) == low * scale,
            ;
        }
        let same: bool = self.negative == other.negative;
        let sum: u128 = if same { a + b } else if a >= b { a - b } else { b - a };
        let negative: bool = if same || a >= b { self.negative } else { other.negative };
        let (significand, exponent) = normalize(sum, 1, other.exponent);
        let r = Binary64 { negative: negative && sum != 0, significand, exponent };
        proof {
            lemma_magnitude_zero(r);
            lemma_nearest_exact(0, 0);
            lemma_mul_basics_1(low as int);
            assert(sum * low == (if same { a * low + b * low } else if a >= b { a * low - b * low } else { b * low - a * low }))
                by (nonlinear_arith)
                requires
                    same ==> sum == a + b,
                    !same && a >= b ==> sum == a - b,
                    !same && a < b ==> sum == b - a,
            ;
            assert(sum * low == 0 <==> sum == 0) by (nonlinear_arith)
                requires
                    low > 0,
            ;
            assert(self.units() + other.units() == if negative { -(sum * low) } else { sum * low });
        }
        r
    }

    /// The sum, rounded to the format.
    pub fn plus(self, other: Binary64) -> (r: Binary64)
        requires
            self.wf(),
            other.wf(),
            self.exponent <= 5_000,
            other.exponent <= 5_000,
        ensures
            r.wf(),
            r.units() == nearest(self.units() + other.units(), 1),
            r.exponent <= self.exponent + 63 || r.exponent <= other.exponent + 63,
            forall|e: int|
                #![trigger self.without_places_below(e), other.without_places_below(e)]
                self.without_places_below(e) && other.without_places_below(e)
                    ==> r.without_places_below(e - 52),
    {
        proof {
            lemma_magnitude_zero(self);
            lemma_magnitude_zero(other);
            lemma_nearest_exact(self.significand as nat, self.exponent as nat);
            lemma_nearest_exact(other.significand as nat, other.exponent as nat);
        }
        if self.significand == 0 {
            other
        } else if other.significand == 0 {
            self
        } else if self.exponent >= other.exponent {
            self.plus_smaller(other)
        } else {
            other.plus_smaller(self)
        }
    }

    /// The difference, rounded to the format.
    pub fn minus(self, other: Binary64) -> (r: Binary64)
        requires
            self.wf(),
            other.wf(),
            self.exponent <= 5_000,
            other.exponent <= 5_000,
        ensures
            r.wf(),
            r.units() == nearest(self.units() - other.units(), 1),
            r.exponent <= self.exponent + 63 || r.exponent <= other.exponent + 63,
            forall|e: int|
                #![trigger self.without_places_below(e), other.without_places_below(e)]
                self.without_places_below(e) && other.without_places_below(e)
                    ==> r.without_places_below(e - 52),
    {
        let opposite = other.negated();
        let r = self.plus(opposite);
        proof {
            assert forall|e: int|
                #![trigger self.without_places_below(e), other.without_places_below(e)]
                self.without_places_below(e) && other.without_places_below(e)
                implies r.without_places_below(e - 52) by {
                assert(opposite.without_places_below(e));
            }
        }
        r
    }

    /// The product, rounded to the format.
    ///
    /// The two numbers are not so small that their product has places below one
    /// unit.
    pub fn times(self, other: Binary64) -> (r: Binary64)
        requires
            self.wf(),
            other.wf(),
            self.exponent <= 5_000,
            other.exponent <= 5_000,
            self.significand == 0 || other.significand == 0 || self.exponent + other.exponent
                >= UNIT_BITS,
        ensures
            r.wf(),
            r.units() == nearest(self.units() * other.units(), pow2(UNIT_BITS as nat)),
            r.exponent <= self.exponent + other.exponent,
            r.without_places_below(self.exponent + other.exponent - UNIT_BITS - 52),
    {
        proof {
            lemma_pow2_pos(UNIT_BITS as nat);
            lemma_magnitude_zero(self);
            lemma_magnitude_zero(other);
        }
        if self.significand == 0 || other.significand == 0 {
            proof {
                assert(self.units() * other.units() == 0) by (nonlinear_arith)
                    requires
                        self.units() == 0 || other.units() == 0,
                ;
                lemma_nearest_zero(pow2(UNIT_BITS as nat));
            }
            return Binary64 { negative: false, significand: 0, exponent: 0 };
        }
        let place: u32 = self.exponent + other.exponent - UNIT_BITS;
        assert(self.significand * other.significand < 0x20_0000_0000_0000 * 0x20_0000_0000_0000)
            by (nonlinear_arith)
            requires
                self.significand < SIGNIFICAND_END,
                other.significand < SIGNIFICAND_END,
        ;
        let product: u128 = self.significand as u128 * other.significand as u128;
        let negative: bool = self.negative != other.negative;
        let (significand, exponent) = normalize(product, 1, place);
        proof {
            let sp = pow2(self.exponent as nat);
            let op = pow2(other.exponent as nat);
            let one = pow2(UNIT_BITS as nat);
            lemma_pow2_adds(self.exponent as nat, other.exponent as nat);
            lemma_pow2_adds(place as nat, UNIT_BITS as nat);
            lemma_pow2_pos(place as nat);
            assert(self.magnitude() * other.magnitude() == (product * pow2(place as nat)) * one)
                by (nonlinear_arith)
                requires
                    self.magnitude() == self.significand * sp,
                    other.magnitude() == other.significand * op,
                    product == self.significand * other.significand,
                    sp * op == pow2(place as nat) * one,
            ;
            assert(product > 0) by (nonlinear_arith)
                requires
                    product == self.significand * other.significand,
                    self.significand > 0,
                    other.significand > 0,
            ;
            assert(self.units() * other.units() == if negative {
                -(self.magnitude() * other.magnitude())
            } else {
                (self.magnitude() * other.magnitude()) as int
            }) by {
                let a = self.magnitude() as int;
                let b = other.magnitude() as int;
                assert((-a) * b == -(a * b) && a * (-b) == -(a * b) && (-a) * (-b) == a * b)
                    by (nonlinear_arith);
            }
            assert(self.magnitude() * other.magnitude() > 0) by (nonlinear_arith)
                requires
                    self.magnitude() > 0,
                    other.magnitude() > 0,
            ;
            lemma_nearest_common_factor(product as nat * pow2(place as nat), one);
        }
        Binary64 { negative, significand, exponent }
    }

    /// Whether `self` is the lesser number.
    pub fn less_than(self, other: Binary64) -> (r: bool)
        requires
            self.wf(),
            other.wf(),
        ensures
            r == (self.units() < other.units()),
    {
        proof {
            lemma_magnitude_zero(self);
            lemma_magnitude_zero(other);
            lemma_magnitude_order(self, other);
            lemma_magnitude_order(other, self);
        }
        if self.negative != other.negative {
            self.negative
        } else if self.exponent != other.exponent {
            (self.exponent < other.exponent) != self.negative
        } else if self.negative {
            self.significand > other.significand
        } else {
            self.significand < other.significand
        }
    }

    /// Appends the number rounded to a whole one.
    pub fn push_whole(self, out: &mut String)
        requires
            self.wf(),
            self.exponent <= UNIT_BITS + 10,
        ensures
            final(out)@ == old(out)@ + whole_text(self.units()),
    {
        proof {
            lemma_magnitude_zero(self);
        }
        if self.negative {
            out.append("-");
        }
        let whole: u64 = self.whole_magnitude();
        text::push_decimal(out, whole);
        assert(out@ =~= old(out)@ + whole_text(self.units()));
    }

    /// The magnitude rounded to a whole number.
    fn whole_magnitude(self) -> (r: u64)
        requires
            self.wf(),
            self.exponent <= UNIT_BITS + 10,
        ensures
            r == half_even(self.magnitude(), pow2(UNIT_BITS as nat)),
    {
        let ghost one = pow2(UNIT_BITS as nat);
        let ghost e = self.exponent as nat;
        proof {
            lemma_pow2_pos(UNIT_BITS as nat);
            lemma2_to64();
            lemma2_to64_rest();
        }
        if self.exponent >= UNIT_BITS {
            let left: u32 = self.exponent - UNIT_BITS;
            proof {
                if left < 10 {
                    lemma_pow2_strictly_increases(left as nat, 10);
                }
                lemma_pow2_adds(left as nat, UNIT_BITS as nat);
                vstd::bits::lemma_u64_shl_is_mul(1, left as u64);
            }
            let scale: u64 = 1u64 << (left as u64);
            assert(self.significand * scale <= 0x20_0000_0000_0000 * 1024) by (nonlinear_arith)
                requires
                    self.significand < SIGNIFICAND_END,
                    scale <= 1024,
            ;
            let whole: u64 = self.significand * scale;
            proof {
                assert(self.magnitude() == one * whole) by (nonlinear_arith)
                    requires
                        self.magnitude() == self.significand * pow2(e),
                        pow2(e) == scale * one,
                        whole == self.significand * scale,
                ;
                lemma_fundamental_div_mod_converse(
                    self.magnitude() as int,
                    one as int,
                    whole as int,
                    0,
                );
            }
            whole
        } else {
            let right: u32 = UNIT_BITS - self.exponent;
            proof {
                lemma_pow2_adds(right as nat, e);
                lemma_pow2_pos(e);
                lemma_pow2_pos(right as nat);
                assert(half_even(self.magnitude(), one) == half_even(
                    self.significand as nat,
                    pow2(right as nat),
                )) by {
                    lemma_half_even_scale(self.significand as nat, pow2(right as nat), pow2(e));
                }
            }
            if right > 53 {
                proof {
                    if right > 54 {
                        lemma_pow2_strictly_increases(54, right as nat);
                    }
                    lemma_fundamental_div_mod_converse(
                        self.significand as int,
                        pow2(right as nat) as int,
                        0,
                        self.significand as int,
                    );
                }
                0
            } else {
                proof {
                    if right < 53 {
                        lemma_pow2_strictly_increases(right as nat, 53);
                    }
                    vstd::bits::lemma_u64_shl_is_mul(1, right as u64);
                }
                let den: u64 = 1u64 << (right as u64);
                let quotient: u64 = self.significand / den;
                let rest: u64 = self.significand % den;
                if 2 * rest < den || (2 * rest == den && quotient % 2 == 0) {
                    quotient
                } else {
                    quotient + 1
                }
            }
        }
    }

    /// The bit pattern of the interchange format: sign, biased exponent and
    /// fraction.
    pub open spec fn pattern(self) -> int {
        let sign = if self.negative { 0x8000_0000_0000_0000int } else { 0 };
        if self.significand < MIN_NORMAL {
            sign + self.significand
        } else {
            sign + (self.exponent + 1) * MIN_NORMAL + (self.significand - MIN_NORMAL)
        }
    }

    /// The bit pattern of the interchange format.
    pub fn to_bits(self) -> (r: u64)
        requires
            self.wf(),
            self.exponent <= 2045,
        ensures
            r == self.pattern(),
    {
        let sign: u64 = if self.negative { 0x8000_0000_0000_0000 } else { 0 };
        if self.significand < MIN_NORMAL {
            sign + self.significand
        } else {
            sign + (self.exponent as u64 + 1) * MIN_NORMAL + (self.significand - MIN_NORMAL)
        }
    }
}

/// Each value has one form.
pub proof fn lemma_one_form(a: Binary64, b: Binary64)
    requires
        a.wf(),
        b.wf(),
        a.units() == b.units(),
    ensures
        a == b,
{
    lemma_magnitude_zero(a);
    lemma_magnitude_zero(b);
    lemma_magnitude_order(a, b);
    lemma_magnitude_order(b, a);
}

/// How far two numbers are apart.
pub open spec fn distance(x: int, y: int) -> int {
    if x < y {
        y - x
    } else {
        x - y
    }
}

/// No multiple of `d` is closer to `a` than the one that [`half_even`] picks.
proof fn lemma_half_even_closest(a: nat, d: nat, k: nat)
    requires
        d > 0,
    ensures
        distance((half_even(a, d) * d) as int, a as int) <= distance((k * d) as int, a as int),
{
    let q = a / d;
    lemma_fundamental_div_mod(a as int, d as int);
    lemma_mul_is_commutative(d as int, q as int);
    assert((q + 1) * d == q * d + d) by (nonlinear_arith);
    if k <= q {
        lemma_mul_inequality(k as int, q as int, d as int);
    } else {
        lemma_mul_inequality((q + 1) as int, k as int, d as int);
    }
}

/// A greater number has no lower last place.
proof fn lemma_last_place_monotone(q: nat, r: nat)
    requires
        q <= r,
    ensures
        last_place(q) <= last_place(r),
{
    let p = last_place(q);
    let t = last_place(r);
    lemma_last_place_fits(q);
    lemma_last_place_fits(r);
    if t < p {
        let gap = (p - t) as nat;
        lemma_pow2_adds(t, gap);
        lemma_pow2_unfold(gap);
        lemma_pow2_pos((gap - 1) as nat);
        lemma_pow2_pos(t);
        assert(MIN_NORMAL * pow2(p) >= SIGNIFICAND_END * pow2(t)) by (nonlinear_arith)
            requires
                pow2(p) == pow2(t) * pow2(gap),
                pow2(gap) >= 2,
                SIGNIFICAND_END == 2 * MIN_NORMAL,
                pow2(t) > 0,
        ;
    }
}

/// [`nearest_magnitude`] gives the nearest number of the format: no other number
/// of it, `m * 2^e` units with `m` below `2^53`, is closer to `a / b` units.
pub proof fn lemma_nearest_is_nearest(a: nat, b: nat, m: nat, e: nat)
    requires
        b > 0,
        m < SIGNIFICAND_END,
    ensures
        distance((nearest_magnitude(a, b) * b) as int, a as int) <= distance(
            (m * pow2(e) * b) as int,
            a as int,
        ),
{
    let q = a / b;
    let place = last_place(q);
    let p = pow2(place);
    let d = b * p;
    let h = half_even(a, d);
    lemma_pow2_pos(place);
    lemma_last_place_fits(q);
    assert(d > 0) by (nonlinear_arith)
        requires
            d == b * p,
            b > 0,
            p > 0,
    ;
    assert(h * p * b == h * d) by (nonlinear_arith)
        requires
            d == b * p,
    ;
    if e >= place {
        let gap = (e - place) as nat;
        lemma_pow2_adds(place, gap);
        let k = m * pow2(gap);
        assert(m * pow2(e) * b == k * d) by (nonlinear_arith)
            requires
                pow2(e) == p * pow2(gap),
                k == m * pow2(gap),
                d == b * p,
        ;
        lemma_half_even_closest(a, d, k);
    } else {
        let gap = (place - e) as nat;
        lemma_pow2_adds(e, gap);
        lemma_pow2_unfold(gap);
        lemma_pow2_pos((gap - 1) as nat);
        lemma_pow2_pos(e);
        lemma_fundamental_div_mod(a as int, b as int);
        let k = MIN_NORMAL as nat;
        assert(m * pow2(e) <= k * p) by (nonlinear_arith)
            requires
                m < 2 * k,
                p == pow2(e) * pow2(gap),
                pow2(gap) >= 2,
                pow2(e) > 0,
        ;
        assert(m * pow2(e) * b <= k * d && k * d <= a) by (nonlinear_arith)
            requires
                m * pow2(e) <= k * p,
                d == b * p,
                q >= k * p,
                a == b * q + a % b,
                a % b >= 0,
                b > 0,
        ;
        lemma_half_even_closest(a, d, k);
    }
}

/// Rounding keeps the order of two fractions with one divisor.
proof fn lemma_half_even_monotone(a: nat, c: nat, d: nat)
    requires
        a <= c,
        d > 0,
    ensures
        half_even(a, d) <= half_even(c, d),
        a / d <= half_even(a, d) <= a / d + 1,
{
    lemma_div_is_ordered(a as int, c as int, d as int);
    lemma_fundamental_div_mod(a as int, d as int);
    lemma_fundamental_div_mod(c as int, d as int);
}

/// Rounding keeps the order of two fractions with one divisor.
proof fn lemma_magnitude_monotone(a: nat, c: nat, b: nat)
    requires
        a <= c,
        b > 0,
    ensures
        nearest_magnitude(a, b) <= nearest_magnitude(c, b),
{
    let q = a / b;
    let r = c / b;
    let place = last_place(q);
    let higher = last_place(r);
    let p = pow2(place);
    let t = pow2(higher);
    lemma_pow2_pos(place);
    lemma_pow2_pos(higher);
    lemma_div_is_ordered(a as int, c as int, b as int);
    lemma_last_place_monotone(q, r);
    lemma_last_place_fits(q);
    lemma_last_place_fits(r);
    assert(b * p > 0 && b * t > 0) by (nonlinear_arith)
        requires
            b > 0,
            p > 0,
            t > 0,
    ;
    lemma_half_even_monotone(a, a, b * p);
    lemma_half_even_monotone(c, c, b * t);
    if place == higher {
        lemma_half_even_monotone(a, c, b * p);
        lemma_mul_inequality(
            half_even(a, b * p) as int,
            half_even(c, b * p) as int,
            p as int,
        );
    } else {
        let gap = (higher - place) as nat;
        lemma_pow2_adds(place, gap);
        lemma_pow2_unfold(gap);
        lemma_pow2_pos((gap - 1) as nat);
        lemma_div_denominator(a as int, b as int, p as int);
        lemma_div_denominator(c as int, b as int, t as int);
        let h = half_even(a, b * p);
        let g = half_even(c, b * t);
        assert(q / p < SIGNIFICAND_END) by (nonlinear_arith)
            requires
                q < SIGNIFICAND_END * p,
                p > 0,
        ;
        assert(r / t >= MIN_NORMAL) by (nonlinear_arith)
            requires
                r >= MIN_NORMAL * t,
                t > 0,
        ;
        assert(h * p <= g * t) by (nonlinear_arith)
            requires
                h <= 2 * MIN_NORMAL,
                g >= MIN_NORMAL,
                t == p * pow2(gap),
                pow2(gap) >= 2,
                p > 0,
        ;
    }
}

/// Rounding keeps the order of two fractions with one divisor, and the sign.
pub proof fn lemma_nearest_monotone(a: int, c: int, b: nat)
    requires
        a <= c,
        b > 0,
    ensures
        nearest(a, b) <= nearest(c, b),
        nearest(-a, b) == -nearest(a, b),
        0 <= a ==> 0 <= nearest(a, b),
{
    lemma_nearest_zero(b);
    if a < 0 && c < 0 {
        lemma_magnitude_monotone((-c) as nat, (-a) as nat, b);
    } else if a >= 0 {
        lemma_magnitude_monotone(a as nat, c as nat, b);
    }
}

/// Rounding once more changes nothing.
proof fn lemma_magnitude_again(a: nat, b: nat)
    requires
        b > 0,
    ensures
        nearest_magnitude(nearest_magnitude(a, b), 1) == nearest_magnitude(a, b),
{
    let q = a / b;
    let place = last_place(q);
    let p = pow2(place);
    lemma_pow2_pos(place);
    lemma_last_place_fits(q);
    assert(b * p > 0) by (nonlinear_arith)
        requires
            b > 0,
            p > 0,
    ;
    let h = half_even(a, b * p);
    lemma_half_even_monotone(a, a, b * p);
    lemma_div_denominator(a as int, b as int, p as int);
    assert(q / p < SIGNIFICAND_END) by (nonlinear_arith)
        requires
            q < SIGNIFICAND_END * p,
            p > 0,
    ;
    if h < SIGNIFICAND_END {
        lemma_nearest_exact(h, place);
    } else {
        lemma_pow2_unfold(place + 1);
        assert(h * p == MIN_NORMAL * pow2(place + 1)) by (nonlinear_arith)
            requires
                h == 2 * MIN_NORMAL,
                pow2(place + 1) == 2 * p,
        ;
        lemma_nearest_exact(MIN_NORMAL as nat, place + 1);
    }
}

/// Rounding once more changes nothing.
pub proof fn lemma_nearest_again(a: int, b: nat)
    requires
        b > 0,
    ensures
        nearest(nearest(a, b), 1) == nearest(a, b),
{
    lemma_nearest_zero(1);
    if a < 0 {
        lemma_magnitude_again((-a) as nat, b);
    } else {
        lemma_magnitude_again(a as nat, b);
    }
}

/// Rounding changes a number of units by little: seven eighths of the result do not
/// exceed `r`, a number of the format that is not above the given one.
proof fn lemma_rounded_part(d: nat) -> (r: nat)
    ensures
        r <= d,
        7 * nearest_magnitude(d, 1) <= 8 * r,
        nearest_magnitude(r, 1) == r,
{
    let place = last_place(d);
    let p = pow2(place);
    lemma_pow2_pos(place);
    lemma_last_place_fits(d);
    assert(d / 1 == d);
    assert(1 * p == p);
    let m = d / p;
    let h = half_even(d, p);
    lemma_half_even_monotone(d, d, p);
    lemma_fundamental_div_mod(d as int, p as int);
    lemma_mul_is_commutative(p as int, m as int);
    assert(m < SIGNIFICAND_END) by (nonlinear_arith)
        requires
            m * p <= d,
            d < SIGNIFICAND_END * p,
            p > 0,
    ;
    lemma_nearest_exact(m, place);
    if place == 0 {
        lemma2_to64();
        assert(d % 1 == 0);
        assert(h == m);
    } else {
        assert(m >= MIN_NORMAL) by (nonlinear_arith)
            requires
                d >= MIN_NORMAL * p,
                m == d / p,
                p > 0,
        ;
        assert(7 * (h * p) <= 8 * (m * p)) by (nonlinear_arith)
            requires
                h <= m + 1,
                m >= 7,
                p > 0,
        ;
    }
    m * p
}

/// Four fifths of a number, each step rounded, are not more than the number.
pub proof fn lemma_four_fifths(d: nat, u: nat)
    requires
        u == pow2(UNIT_BITS as nat),
    ensures
        0 <= nearest(nearest(d as int, 1) * nearest((4 * u) as int, 5), u) <= d,
{
    lemma_pow2_pos(UNIT_BITS as nat);
    let l = nearest_magnitude(d, 1);
    let r = lemma_rounded_part(d);
    // Four fifths round to no more than seven eighths, which the format holds.
    let f = nearest_magnitude(4 * u, 5);
    lemma_pow2_adds(3, 1071);
    lemma2_to64();
    let eighth = pow2(1071);
    lemma_nearest_exact(7, 1071);
    lemma_nearest_common_factor(7 * eighth, 5);
    lemma_magnitude_monotone(4 * u, 7 * eighth * 5, 5);
    assert(8 * f <= 7 * u);
    assert(0 <= l * f <= r * u) by (nonlinear_arith)
        requires
            7 * l <= 8 * r,
            8 * f <= 7 * u,
            0 <= l,
            0 <= f,
            0 <= u,
    ;
    lemma_magnitude_monotone(l * f, r * u, u);
    lemma_nearest_common_factor(r, u);
    assert(nearest(d as int, 1) == l && nearest((4 * u) as int, 5) == f);
}

/// A whole number is written in its decimal digits, and a negative one with a minus sign.
pub proof fn lemma_whole_text(n: nat)
    ensures
        whole_text((n * pow2(UNIT_BITS as nat)) as int) == text::decimal(n),
        n > 0 ==> whole_text(-(n * pow2(UNIT_BITS as nat))) == "-"@ + text::decimal(n),
{
    let u = pow2(UNIT_BITS as nat);
    lemma_pow2_pos(UNIT_BITS as nat);
    lemma_fundamental_div_mod_converse((n * u) as int, u as int, n as int, 0);
    assert(half_even(n * u, u) == n);
    assert(n > 0 ==> n * u > 0) by (nonlinear_arith)
        requires
            u > 0,
    ;
}

/// Rounding to a whole number goes to the nearer one, and from the middle to the even one.
pub proof fn lemma_half_even(a: nat, b: nat)
    requires
        b > 0,
    ensures
        2 * distance((half_even(a, b) * b) as int, a as int) <= b,
        2 * distance((half_even(a, b) * b) as int, a as int) == b ==> half_even(a, b) % 2 == 0,
{
    let q = a / b;
    let r = a % b;
    lemma_fundamental_div_mod(a as int, b as int);
    assert(q * b + r == a && (q + 1) * b == q * b + b && 0 <= r < b) by (nonlinear_arith)
        requires
            a == b * q + r,
            0 <= r < b,
    ;
}

/// The bit pattern of a number: a negative one has the top bit beside the pattern without a
/// sign, the next significand has the next pattern, the powers of two from `2^-1022` on
/// have the biased exponent alone, and zero has no bit at all.
pub proof fn lemma_pattern(x: Binary64)
    requires
        x.wf(),
    ensures
        x.negative ==> x.pattern() == 0x8000_0000_0000_0000 + (Binary64 {
            negative: false,
            ..x
        }).pattern(),
        x.significand + 1 < SIGNIFICAND_END ==> (Binary64 {
            significand: (x.significand + 1) as u64,
            ..x
        }).pattern() == x.pattern() + 1,
        x.significand + 1 == SIGNIFICAND_END && x.exponent < 5_000 ==> (Binary64 {
            significand: MIN_NORMAL,
            exponent: (x.exponent + 1) as u32,
            ..x
        }).pattern() == x.pattern() + 1,
        !x.negative && x.significand == MIN_NORMAL ==> x.pattern() == (x.exponent + 1)
            * 0x10_0000_0000_0000,
        x.significand == 0 ==> x.pattern() == 0,
{
}

/// The power of two at or below a number.
proof fn lemma_power_below(k: nat) -> (j: nat)
    requires
        k > 0,
    ensures
        pow2(j) <= k < 2 * pow2(j),
    decreases k,
{
    lemma2_to64();
    if k == 1 {
        0
    } else {
        let half = lemma_power_below(k / 2);
        lemma_pow2_unfold(half + 1);
        half + 1
    }
}

/// Four fifths, rounded.
proof fn lemma_four_fifths_rounded()
    ensures
        nearest_magnitude(4 * pow2(UNIT_BITS as nat), 5) == 0x1999_9999_9999_9A * pow2(1021),
{
    lemma_pow2_adds(53, 1021);
    lemma2_to64();
    lemma2_to64_rest();
    let n: nat = 0x80_0000_0000_0000;
    assert(pow2(53) == 0x20_0000_0000_0000);
    assert(4 * pow2(UNIT_BITS as nat) == n * pow2(1021)) by (nonlinear_arith)
        requires
            pow2(UNIT_BITS as nat) == 0x20_0000_0000_0000 * pow2(1021),
            n == 0x80_0000_0000_0000,
    ;
    assert(5 * pow2(0) == 5);
    lemma_nearest_scaled(n, 5, 1021, 0);
    assert(half_even(n, 5) == 0x1999_9999_9999_9A);
}

/// Of a number of fives, the rounded four fifths are as many fours exactly.
proof fn lemma_fours(k: nat)
    requires
        0 < k < 0x1_0000_0000,
    ensures
        nearest_magnitude(5 * k * (0x1999_9999_9999_9A * pow2(1021)), 1) == 4 * k * pow2(
            UNIT_BITS as nat,
        ),
{
    let j = lemma_power_below(k);
    let a = pow2(j);
    lemma2_to64();
    lemma2_to64_rest();
    if j >= 32 {
        if j > 32 {
            lemma_pow2_strictly_increases(32, j);
        }
    }
    assert(j < 32);
    let b = pow2(j + 3);
    lemma_pow2_adds(j, 3);
    let c = pow2((52 - j) as nat);
    lemma_pow2_adds((52 - j) as nat, j + 3);
    assert(c * b == pow2(55));
    assert(b == 8 * a);
    let n = k * 0x80_0000_0000_0002;
    assert(5 * k * (0x1999_9999_9999_9A * pow2(1021)) == n * pow2(1021)) by (nonlinear_arith)
        requires
            n == k * 0x80_0000_0000_0002,
    ;
    assert(1 * b == b);
    assert(n < SIGNIFICAND_END * b && n >= MIN_NORMAL * b) by (nonlinear_arith)
        requires
            n == k * 0x80_0000_0000_0002,
            b == 8 * a,
            a <= k <= 2 * a - 1,
            a <= 0x8000_0000,
            SIGNIFICAND_END == 0x20_0000_0000_0000,
            MIN_NORMAL == 0x10_0000_0000_0000,
    ;
    lemma_nearest_scaled(n, 1, 1021, j + 3);
    let q = k * c;
    assert(n == q * b + 2 * k) by (nonlinear_arith)
        requires
            n == k * 0x80_0000_0000_0002,
            q == k * c,
            c * b == 0x80_0000_0000_0000,
    ;
    lemma_fundamental_div_mod_converse(n as int, b as int, q as int, (2 * k) as int);
    assert(half_even(n, b) == q);
    lemma_pow2_adds(j + 3, 1021);
    lemma_pow2_adds(53, 1021);
    assert(q * (b * pow2(1021)) == 4 * k * (0x20_0000_0000_0000 * pow2(1021))) by (nonlinear_arith)
        requires
            q == k * c,
            c * b == 0x80_0000_0000_0000,
    ;
}

/// Four fifths of five times a whole number are four times it, rounding and all.
pub proof fn lemma_exact_four_fifths(k: nat)
    requires
        k < 0x1_0000_0000,
    ensures
        ({
            let u = pow2(UNIT_BITS as nat);
            nearest(nearest((5 * k * u) as int, 1) * nearest((4 * u) as int, 5), u) == 4 * k * u
        }),
{
    let u = pow2(UNIT_BITS as nat);
    let f = 0x1999_9999_9999_9A * pow2(1021);
    lemma_pow2_pos(UNIT_BITS as nat);
    lemma_pow2_pos(1021);
    lemma_four_fifths_rounded();
    lemma_nearest_exact(5 * k, UNIT_BITS as nat);
    assert(5 * k * u >= 0) by (nonlinear_arith)
        requires
            k >= 0,
            u > 0,
    ;
    assert(nearest((5 * k * u) as int, 1) == 5 * k * u);
    if k == 0 {
        lemma_nearest_zero(u);
        assert(5 * k * u == 0 && (5 * k * u) * f == 0 && 4 * k * u == 0) by (nonlinear_arith)
            requires
                k == 0,
        ;
    } else {
        lemma_fours(k);
        let x = 5 * k * f;
        assert((5 * k * u) * f == x * u && x * u >= 0) by (nonlinear_arith)
            requires
                x == 5 * k * f,
                k >= 0,
                f >= 0,
                u > 0,
        ;
        lemma_nearest_common_factor(x, u);
    }
}

/// A number is written as the whole number that is nearest to it, and as the even one of
/// two that are equally near; a negative number has a minus sign before it.
pub proof fn lemma_whole_text_nearest(units: int, m: nat)
    requires
        ({
            let u = pow2(UNIT_BITS as nat) as int;
            let size = if units < 0 { -units } else { units };
            let off = 2 * distance(m * u, size);
            off < u || (off == u && m % 2 == 0)
        }),
    ensures
        units >= 0 ==> whole_text(units) == text::decimal(m),
        units < 0 ==> whole_text(units) == "-"@ + text::decimal(m),
{
    let u = pow2(UNIT_BITS as nat);
    lemma_pow2_pos(UNIT_BITS as nat);
    let size = (if units < 0 { -units } else { units }) as nat;
    let h = half_even(size, u);
    lemma_half_even(size, u);
    assert(h == m) by {
        let q = size / u;
        let r = size % u;
        lemma_fundamental_div_mod(size as int, u as int);
        lemma_mod_bound(size as int, u as int);
        assert(m * u <= size ==> m <= q) by (nonlinear_arith)
            requires
                size == u * q + r,
                r < u,
                u > 0,
        ;
        assert(m > q + 1 ==> 2 * (m * u - size) > u) by (nonlinear_arith)
            requires
                size == u * q + r,
                0 <= r < u,
                u > 0,
        ;
        assert(m < q ==> 2 * (size - m * u) > u) by (nonlinear_arith)
            requires
                size == u * q + r,
                0 <= r < u,
                u > 0,
        ;
        assert(m == q ==> m * u == size - r) by (nonlinear_arith)
            requires
                size == u * q + r,
        ;
        assert(m == q + 1 ==> m * u == size - r + u) by (nonlinear_arith)
            requires
                size == u * q + r,
        ;
        assert(m == q || m == q + 1);
    }
}

} // verus!
