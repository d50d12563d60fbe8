//! Times of capture.

use vstd::arithmetic::power2::*;
use vstd::prelude::*;

use crate::binary64;
use crate::binary64::{Binary64, UNIT_BITS};
use crate::text;

verus! {

/// A time of capture, in seconds and microseconds.
#[derive(Debug, Clone, Copy, PartialEq, Eq, Structural)]
pub struct Timestamp {
    pub sec: u32,
    pub usec: u32,
}

/// The units of one.
pub open spec fn one() -> nat {
    pow2(UNIT_BITS as nat)
}

/// A time is not negative and below `2^34` seconds.
proof fn lemma_seconds_bound(t: Timestamp)
    ensures
        0 <= t.seconds() <= 0x4_0000_0000 * one(),
{
    let u = one();
    lemma_pow2_pos(UNIT_BITS as nat);
    let micros = t.usec as nat * u;
    binary64::lemma_nearest_bound(micros, 1_000_000);
    assert(micros / 1_000_000 <= 4295 * u) by (nonlinear_arith)
        requires
            micros == t.usec * u,
            t.usec <= 4_295_000_000,
            u > 0,
    ;
    let fraction = binary64::nearest_magnitude(micros, 1_000_000);
    assert(t.sec * u <= 0xffff_ffff * u && 0 <= t.sec * u && 0 <= t.usec * u) by (nonlinear_arith)
        requires
            t.sec <= 0xffff_ffff,
            u > 0,
    ;
    let sum = (t.sec * u + fraction) as nat;
    binary64::lemma_nearest_bound(sum, 1);
}

/// The milliseconds between two times stay far below `2^52`.
proof fn lemma_ms_bound(a: Timestamp, b: Timestamp)
    ensures
        -0x8000_0000_0000 * one() <= a.ms_since(b) <= 0x8000_0000_0000 * one(),
        0x8000_0000_0000 * one() < binary64::MIN_NORMAL * one(),
{
    let u = one();
    lemma_pow2_pos(UNIT_BITS as nat);
    lemma_seconds_bound(a);
    lemma_seconds_bound(b);
    let x = a.seconds() - b.seconds();
    let magnitude = if x < 0 {
        (-x) as nat
    } else {
        x as nat
    };
    binary64::lemma_nearest_bound(magnitude, 1);
    let d = binary64::nearest_magnitude(magnitude, 1);
    assert(d <= 0x10_0000_0000 * u);
    let product = d * (1000 * u);
    assert(product / u == 1000 * d) by (nonlinear_arith)
        requires
            product == d * (1000 * u),
            u > 0,
    ;
    binary64::lemma_nearest_bound(product, u);
    let y = binary64::nearest(x, 1);
    assert(y * (1000 * u) == if x < 0 { -(product as int) } else { product as int }) by (nonlinear_arith)
        requires
            y == if x < 0 { -(d as int) } else { d as int },
            product == d * (1000 * u),
    ;
    assert(product >= 0);
}

impl Timestamp {
    /// The time in seconds: the microseconds are divided by a million, which is
    /// rounded, and added to the seconds, which is rounded again.
    pub open spec fn seconds(self) -> int {
        binary64::nearest(
            self.sec * one() + binary64::nearest(self.usec * one(), 1_000_000),
            1,
        )
    }

    /// The milliseconds since `other`, negative where it is later: the difference
    /// of the seconds, rounded, times a thousand, rounded.
    pub open spec fn ms_since(self, other: Timestamp) -> int {
        binary64::nearest(
            binary64::nearest(self.seconds() - other.seconds(), 1) * (1000 * one()),
            one(),
        )
    }

    /// The time in seconds.
    pub fn to_f64(&self) -> (r: Binary64)
        ensures
            r.wf(),
            r.units() == self.seconds(),
            r.exponent <= 1200,
            r.without_places_below(950),
    {
        let whole = Binary64::from_u32(self.sec);
        let fraction = Binary64::from_ratio(self.usec, 1_000_000);
        assert(whole.without_places_below(1002) && fraction.without_places_below(1002));
        whole.plus(fraction)
    }

    /// The milliseconds since `other`.
    pub fn diff_ms(&self, other: &Timestamp) -> (r: Binary64)
        ensures
            r.wf(),
            r.units() == self.ms_since(*other),
            r.exponent <= UNIT_BITS + 10,
    {
        let a = self.to_f64();
        let b = other.to_f64();
        assert(a.without_places_below(950) && b.without_places_below(950));
        let thousand = Binary64::from_u32(1000);
        let r = a.minus(b).times(thousand);
        proof {
            lemma_ms_bound(*self, *other);
            binary64::lemma_exponent_bound(r, UNIT_BITS as nat);
        }
        r
    }
}

/// A stretch of time, known by its two ends. Where the capture is out of order,
/// `end` may be the earlier.
#[derive(Debug, Clone, Copy, PartialEq, Eq, Structural)]
pub struct Interval {
    pub start: Timestamp,
    pub end: Timestamp,
}

impl Interval {
    /// The length in milliseconds, rounded to a whole number, as text.
    pub open spec fn ms_text(self) -> Seq<char> {
        binary64::whole_text(self.end.ms_since(self.start))
    }

    /// The length in milliseconds.
    pub fn ms(&self) -> (r: Binary64)
        ensures
            r.wf(),
            r.units() == self.end.ms_since(self.start),
            r.exponent <= UNIT_BITS + 10,
    {
        self.end.diff_ms(&self.start)
    }

    /// Appends the length in milliseconds, rounded to a whole number.
    pub fn push_ms(&self, out: &mut String)
        ensures
            final(out)@ == old(out)@ + self.ms_text(),
    {
        self.ms().push_whole(out);
    }
}

/// A time that lies a while after a time of capture.
#[derive(Debug, Clone, Copy, PartialEq, Eq, Structural)]
pub struct Moment {
    pub ts: Timestamp,
    pub after_ms: u32,
}

impl Moment {
    /// The time in seconds: the delay, rounded, is added to the time of capture,
    /// which is rounded again.
    pub open spec fn seconds(self) -> int {
        binary64::nearest(
            self.ts.seconds() + binary64::nearest(self.after_ms * one(), 1000),
            1,
        )
    }

    /// The time in seconds.
    pub fn to_f64(&self) -> (r: Binary64)
        ensures
            r.wf(),
            r.units() == self.seconds(),
            r.exponent <= 1300,
    {
        self.ts.to_f64().plus(Binary64::from_ratio(self.after_ms, 1000))
    }
}

impl Timestamp {
    /// This time is not after the other.
    pub open spec fn not_after(self, other: Timestamp) -> bool {
        self.sec < other.sec || (self.sec == other.sec && self.usec <= other.usec)
    }

    /// The microseconds are less than a second.
    pub open spec fn proper(self) -> bool {
        self.usec < 1_000_000
    }
}

/// Less than a second of microseconds is no more than a second, rounded.
proof fn lemma_fraction(usec: u32)
    requires
        usec <= 1_000_000,
    ensures
        0 <= binary64::nearest(usec * one(), 1_000_000) <= one(),
{
    let u = one();
    lemma_pow2_pos(UNIT_BITS as nat);
    binary64::lemma_nearest_exact(1, UNIT_BITS as nat);
    binary64::lemma_nearest_common_factor(u, 1_000_000);
    assert(0 <= usec * u <= 1_000_000 * u) by (nonlinear_arith)
        requires
            usec <= 1_000_000,
            u > 0,
    ;
    binary64::lemma_nearest_monotone(usec * u, 1_000_000 * u as int, 1_000_000);
    assert(u * 1_000_000 == 1_000_000 * u);
    assert(1 * u == u);
}

/// A later time has no fewer seconds.
pub proof fn lemma_seconds_monotone(a: Timestamp, b: Timestamp)
    requires
        a.proper(),
        a.not_after(b),
    ensures
        0 <= a.seconds() <= b.seconds(),
{
    let u = one();
    lemma_pow2_pos(UNIT_BITS as nat);
    let x = binary64::nearest(a.usec * u, 1_000_000);
    let y = binary64::nearest(b.usec * u, 1_000_000);
    lemma_fraction(a.usec);
    assert(0 <= b.usec * u && 0 <= a.sec * u) by (nonlinear_arith)
        requires
            u > 0,
    ;
    binary64::lemma_nearest_monotone(b.usec * u, b.usec * u, 1_000_000);
    if a.sec == b.sec {
        assert(a.usec * u <= b.usec * u) by (nonlinear_arith)
            requires
                a.usec <= b.usec,
                u > 0,
        ;
        binary64::lemma_nearest_monotone(a.usec * u, b.usec * u, 1_000_000);
    } else {
        assert(a.sec * u + u <= b.sec * u) by (nonlinear_arith)
            requires
                a.sec + 1 <= b.sec,
                u > 0,
        ;
    }
    binary64::lemma_nearest_monotone(a.sec * u + x, b.sec * u + y, 1);
}

/// The milliseconds from a time to one that is not before it are not negative, and
/// they do not get fewer as time goes on. From a time to itself there are none.
pub proof fn lemma_ms_since_monotone(start: Timestamp, a: Timestamp, b: Timestamp)
    requires
        start.proper(),
        a.proper(),
        start.not_after(a),
        a.not_after(b),
    ensures
        start.ms_since(start) == 0,
        0 <= a.ms_since(start) <= b.ms_since(start),
{
    let u = one();
    lemma_pow2_pos(UNIT_BITS as nat);
    lemma_seconds_monotone(start, a);
    lemma_seconds_monotone(a, b);
    let x = a.seconds() - start.seconds();
    let y = b.seconds() - start.seconds();
    binary64::lemma_nearest_zero(1);
    binary64::lemma_nearest_zero(u);
    binary64::lemma_nearest_monotone(x, y, 1);
    let p = binary64::nearest(x, 1);
    let q = binary64::nearest(y, 1);
    assert(0 <= p * (1000 * u) <= q * (1000 * u) && 0 * (1000 * u) == 0) by (nonlinear_arith)
        requires
            0 <= p <= q,
            u > 0,
    ;
    binary64::lemma_nearest_monotone(p * (1000 * u), q * (1000 * u), u);
}

/// The milliseconds from one time to another are those back, with the other sign.
pub proof fn lemma_ms_since_mirrored(a: Timestamp, b: Timestamp)
    ensures
        a.ms_since(b) == -b.ms_since(a),
{
    let u = one();
    lemma_pow2_pos(UNIT_BITS as nat);
    let x = a.seconds() - b.seconds();
    binary64::lemma_nearest_monotone(x, x, 1);
    let p = binary64::nearest(x, 1);
    assert((-p) * (1000 * u) == -(p * (1000 * u))) by (nonlinear_arith);
    binary64::lemma_nearest_monotone(p * (1000 * u), p * (1000 * u), u);
}

/// Between two whole seconds there are exactly a thousand milliseconds for each
/// second.
pub proof fn lemma_whole_seconds(a: Timestamp, b: Timestamp)
    requires
        a.usec == 0,
        b.usec == 0,
    ensures
        a.seconds() == a.sec * one(),
        a.ms_since(b) == 1000 * (a.sec - b.sec) * one(),
{
    let u = one();
    lemma_pow2_pos(UNIT_BITS as nat);
    binary64::lemma_nearest_zero(1_000_000);
    assert(0 * u == 0);
    binary64::lemma_nearest_exact(a.sec as nat, UNIT_BITS as nat);
    binary64::lemma_nearest_exact(b.sec as nat, UNIT_BITS as nat);
    let s = a.sec - b.sec;
    let m: nat = if s < 0 {
        (-s) as nat
    } else {
        s as nat
    };
    assert(a.sec * u - b.sec * u == s * u && 0 <= a.sec * u && 0 <= b.sec * u) by (nonlinear_arith)
        requires
            s == a.sec - b.sec,
            u > 0,
    ;
    assert(a.seconds() - b.seconds() == s * u);
    binary64::lemma_nearest_exact(m, UNIT_BITS as nat);
    assert(s * u == (if s < 0 {
        -((m * u) as int)
    } else {
        (m * u) as int
    })) by (nonlinear_arith)
        requires
            m == if s < 0 {
                -s
            } else {
                s
            },
    ;
    assert((s < 0) == (s * u < 0)) by (nonlinear_arith)
        requires
            u > 0,
    ;
    assert(binary64::nearest(s * u, 1) == s * u);
    binary64::lemma_nearest_exact(1000 * m, UNIT_BITS as nat);
    let product = s * u * (1000 * u);
    let thousands = (1000 * m) * u;
    assert(product == (if s < 0 {
        -((thousands * u) as int)
    } else {
        (thousands * u) as int
    }) && (s < 0) == (product < 0) && 1000 * s * u == (if s < 0 {
        -(thousands as int)
    } else {
        thousands as int
    })) by (nonlinear_arith)
        requires
            product == s * u * (1000 * u),
            thousands == (1000 * m) * u,
            m == if s < 0 {
                -s
            } else {
                s
            },
            u > 0,
    ;
    binary64::lemma_nearest_common_factor(thousands, u);
}

/// Two times of one second are no more than a thousand milliseconds apart.
proof fn lemma_within_a_second(a: Timestamp, b: Timestamp)
    requires
        a.proper(),
        a.sec == b.sec,
    ensures
        a.ms_since(b) <= 1000 * one(),
{
    let u = one();
    let (start, end) = (Timestamp { sec: 0, usec: 0 }, Timestamp { sec: 1, usec: 0 });
    lemma_pow2_pos(UNIT_BITS as nat);
    lemma_whole_seconds(end, start);
    lemma_whole_seconds(start, start);
    let whole = Timestamp { sec: a.sec, usec: 0 };
    lemma_whole_seconds(whole, whole);
    lemma_seconds_monotone(whole, b);
    lemma_fraction(a.usec);
    let next = a.sec as nat + 1;
    binary64::lemma_nearest_exact(next, UNIT_BITS as nat);
    assert(next * u == a.sec * u + u && a.sec * u >= 0) by (nonlinear_arith)
        requires
            next == a.sec + 1,
            u > 0,
    ;
    binary64::lemma_nearest_monotone(
        a.sec * u + binary64::nearest(a.usec * u, 1_000_000),
        (next * u) as int,
        1,
    );
    let x = a.seconds() - b.seconds();
    assert(0 * u == 0 && 1 * u == u);
    assert(a.seconds() <= next * u);
    assert(whole.seconds() <= b.seconds());
    assert(end.seconds() - start.seconds() == u);
    assert(x <= u);
    binary64::lemma_nearest_monotone(x, end.seconds() - start.seconds(), 1);
    let p = binary64::nearest(x, 1);
    let q = binary64::nearest(end.seconds() - start.seconds(), 1);
    assert(p * (1000 * u) <= q * (1000 * u)) by (nonlinear_arith)
        requires
            p <= q,
            u > 0,
    ;
    binary64::lemma_nearest_monotone(p * (1000 * u), q * (1000 * u), u);
}

/// More than a thousand milliseconds later it is a later second.
pub proof fn lemma_later_second(a: Timestamp, b: Timestamp)
    requires
        a.proper(),
        b.proper(),
        a.ms_since(b) > 1000 * one(),
    ensures
        a.sec > b.sec,
{
    lemma_pow2_pos(UNIT_BITS as nat);
    if a.sec == b.sec {
        lemma_within_a_second(a, b);
    } else if a.sec < b.sec {
        lemma_ms_since_monotone(a, b, b);
        lemma_ms_since_mirrored(a, b);
    }
}

/// A time in whole seconds and 64ths of a second, which are 15625 microseconds each, is
/// exact.
pub proof fn lemma_exact_seconds(t: Timestamp, k: nat)
    requires
        t.usec == 15_625 * k,
    ensures
        64 * t.seconds() == (64 * t.sec + k) * one(),
{
    let u = one();
    let part = pow2(1068);
    lemma_pow2_adds(6, 1068);
    lemma2_to64();
    assert(u == 64 * part);
    lemma_pow2_pos(1068);
    let x = k * part;
    assert(t.usec * u == x * 1_000_000 && t.usec * u >= 0) by (nonlinear_arith)
        requires
            t.usec == 15_625 * k,
            u == 64 * part,
            x == k * part,
            part > 0,
    ;
    binary64::lemma_nearest_common_factor(x as nat, 1_000_000);
    binary64::lemma_nearest_exact(k, 1068);
    assert(binary64::nearest(t.usec * u, 1_000_000) == x);
    let m = (64 * t.sec + k) as nat;
    assert(t.sec * u + x == m * part && m * part >= 0) by (nonlinear_arith)
        requires
            m == 64 * t.sec + k,
            u == 64 * part,
            x == k * part,
            part > 0,
    ;
    binary64::lemma_nearest_exact(m, 1068);
    assert(64 * (m * part) == m * u) by (nonlinear_arith)
        requires
            u == 64 * part,
    ;
}

/// The length of an interval between whole seconds is written as a thousand milliseconds
/// for each, with a minus sign where the end is the earlier.
pub proof fn lemma_interval_text(interval: Interval)
    requires
        interval.start.usec == 0,
        interval.end.usec == 0,
    ensures
        interval.start.sec <= interval.end.sec ==> interval.ms_text() == text::decimal(
            (1000 * (interval.end.sec - interval.start.sec)) as nat,
        ),
        interval.start.sec > interval.end.sec ==> interval.ms_text() == "-"@ + text::decimal(
            (1000 * (interval.start.sec - interval.end.sec)) as nat,
        ),
{
    let s = interval.end.sec - interval.start.sec;
    let u = one();
    lemma_pow2_pos(UNIT_BITS as nat);
    lemma_whole_seconds(interval.end, interval.start);
    if s >= 0 {
        binary64::lemma_whole_text((1000 * s) as nat);
        assert(1000 * s * u >= 0) by (nonlinear_arith)
            requires
                s >= 0,
                u > 0,
        ;
    } else {
        binary64::lemma_whole_text((1000 * -s) as nat);
        assert(1000 * s * u < 0 && -(1000 * s * u) == (1000 * -s) * u) by (nonlinear_arith)
            requires
                s < 0,
                u > 0,
        ;
    }
}

/// A moment a number of eighths of a second after a whole second is exact.
pub proof fn lemma_exact_moment(moment: Moment, k: nat)
    requires
        moment.ts.usec == 0,
        moment.after_ms == 125 * k,
    ensures
        8 * moment.seconds() == (8 * moment.ts.sec + k) * one(),
{
    let u = one();
    let part = pow2(1071);
    lemma_pow2_adds(3, 1071);
    lemma2_to64();
    assert(u == 8 * part);
    lemma_pow2_pos(1071);
    lemma_whole_seconds(moment.ts, moment.ts);
    let x = k * part;
    assert(moment.after_ms * u == x * 1000 && x >= 0) by (nonlinear_arith)
        requires
            moment.after_ms == 125 * k,
            u == 8 * part,
            x == k * part,
            part > 0,
    ;
    binary64::lemma_nearest_common_factor(x as nat, 1000);
    binary64::lemma_nearest_exact(k, 1071);
    assert(binary64::nearest(moment.after_ms * u, 1000) == x);
    let m = (8 * moment.ts.sec + k) as nat;
    assert(moment.ts.sec * u + x == m * part && m * part >= 0) by (nonlinear_arith)
        requires
            m == 8 * moment.ts.sec + k,
            u == 8 * part,
            x == k * part,
            part > 0,
    ;
    binary64::lemma_nearest_exact(m, 1071);
    assert(8 * (m * part) == m * u) by (nonlinear_arith)
        requires
            u == 8 * part,
    ;
}

/// Between two times in whole seconds and 64ths of a second there are exactly as many
/// milliseconds as there are.
pub proof fn lemma_exact_ms(a: Timestamp, b: Timestamp, j: nat, k: nat)
    requires
        a.usec == 15_625 * j,
        b.usec == 15_625 * k,
    ensures
        64 * a.ms_since(b) == 1000 * (64 * (a.sec - b.sec) + j - k) * one(),
{
    let u = one();
    let part = pow2(1068);
    lemma_pow2_adds(6, 1068);
    lemma2_to64();
    lemma_pow2_pos(1068);
    lemma_exact_seconds(a, j);
    lemma_exact_seconds(b, k);
    let d = 64 * (a.sec - b.sec) + j - k;
    let m: nat = if d < 0 { (-d) as nat } else { d as nat };
    let x = a.seconds() - b.seconds();
    assert(x == d * part) by (nonlinear_arith)
        requires
            x == a.seconds() - b.seconds(),
            64 * a.seconds() == (64 * a.sec + j) * u,
            64 * b.seconds() == (64 * b.sec + k) * u,
            u == 64 * part,
            d == 64 * (a.sec - b.sec) + j - k,
    ;
    binary64::lemma_nearest_exact(m, 1068);
    assert((d < 0 ==> d * part == -(m * part) && d * part < 0) && (d >= 0 ==> d * part == m * part
        && d * part >= 0)) by (nonlinear_arith)
        requires
            d < 0 ==> m == -d,
            d >= 0 ==> m == d,
            part > 0,
    ;
    assert(binary64::nearest(x, 1) == x);
    let thousands = (1000 * m) * part;
    let product = x * (1000 * u);
    binary64::lemma_nearest_exact(1000 * m, 1068);
    binary64::lemma_nearest_common_factor(thousands, u);
    assert((d < 0 ==> product == -(thousands * u) && product < 0) && (d >= 0 ==> product
        == thousands * u && product >= 0)) by (nonlinear_arith)
        requires
            product == x * (1000 * u),
            x == d * part,
            thousands == (1000 * m) * part,
            d < 0 ==> m == -d,
            d >= 0 ==> m == d,
            part > 0,
            u > 0,
    ;
    assert((d < 0 ==> 64 * -(thousands as int) == 1000 * d * u) && (d >= 0 ==> 64 * thousands == 1000
        * d * u)) by (nonlinear_arith)
        requires
            thousands == (1000 * m) * part,
            u == 64 * part,
            d < 0 ==> m == -d,
            d >= 0 ==> m == d,
    ;
}

} // verus!
