//! The integer model of floating point against the machine's own arithmetic.

use stp_postmortem::binary64::Binary64;

fn value(x: Binary64) -> f64 {
    f64::from_bits(x.to_bits())
}

/// A sequence of numbers with nothing regular about them.
fn scatter(seed: &mut u64) -> u32 {
    *seed = seed.wrapping_mul(6364136223846793005).wrapping_add(1442695040888963407);
    (*seed >> 33) as u32
}

#[test]
fn whole_numbers_are_exact() {
    for n in [0u32, 1, 2, 3, 255, 1000, 65_535, 1_700_000_000, u32::MAX] {
        assert_eq!(value(Binary64::from_u32(n)), n as f64);
    }
}

#[test]
fn fractions_are_rounded_like_the_machine_does() {
    let mut seed = 1;
    for _ in 0..2000 {
        let n = scatter(&mut seed);
        let d = scatter(&mut seed) % 1_000_000 + 1;
        assert_eq!(value(Binary64::from_ratio(n, d)).to_bits(), (n as f64 / d as f64).to_bits());
    }
    assert_eq!(value(Binary64::from_ratio(1, 10)), 0.1);
    assert_eq!(value(Binary64::from_ratio(4, 5)), 0.8);
    assert_eq!(value(Binary64::from_ratio(1, 3)), 1.0 / 3.0);
    assert_eq!(value(Binary64::from_ratio(0, 7)), 0.0);
}

#[test]
fn two_hundred_fifty_sixths_are_exact() {
    for n in [0u16, 1, 255, 256, 512, 3840, 5120, u16::MAX] {
        assert_eq!(value(Binary64::from_256ths(n)), n as f64 / 256.0);
    }
}

#[test]
fn sums_differences_and_products_are_those_of_the_machine() {
    let mut seed = 7;
    for _ in 0..2000 {
        let (n, m) = (scatter(&mut seed), scatter(&mut seed));
        let (d, e) = (scatter(&mut seed) % 1_000_000 + 1, scatter(&mut seed) % 1_000 + 1);
        let a = Binary64::from_ratio(n, d);
        let b = Binary64::from_ratio(m, e);
        let (x, y) = (value(a), value(b));
        assert_eq!(value(a.plus(b)).to_bits(), (x + y).to_bits());
        assert_eq!(value(a.minus(b)).to_bits(), (x - y).to_bits());
        assert_eq!(value(a.times(b)).to_bits(), (x * y).to_bits());
        assert_eq!(value(a.minus(b).times(b)).to_bits(), ((x - y) * y).to_bits());
        assert_eq!(a.less_than(b), x < y);
        assert_eq!(b.minus(a).less_than(a), y - x < x);
    }
}

#[test]
fn a_tie_goes_to_the_even_neighbour() {
    // 2^53 + 1 lies between two numbers of the format.
    let mut x = Binary64::from_u32(1);
    for _ in 0..53 {
        x = x.plus(x);
    }
    let one = Binary64::from_u32(1);
    assert_eq!(value(x.plus(one)), 9007199254740992.0);
    assert_eq!(value(x.plus(one).plus(Binary64::from_u32(2))), 9007199254740994.0);
    assert_eq!(value(x.plus(Binary64::from_u32(3))), 9007199254740996.0);
}

#[test]
fn a_number_less_itself_is_zero_without_a_sign() {
    let a = Binary64::from_ratio(1, 3);
    assert_eq!(a.minus(a).to_bits(), 0);
    assert_eq!(a.minus(a), Binary64::from_u32(0));
}

#[test]
fn negative_numbers_have_their_sign_bit() {
    let a = Binary64::from_ratio(1, 4).minus(Binary64::from_u32(3));
    assert_eq!(a.to_bits(), (-2.75f64).to_bits());
}

#[test]
fn whole_text_is_that_of_the_standard_library() {
    let mut seed = 11;
    for _ in 0..1000 {
        let (n, m) = (scatter(&mut seed), scatter(&mut seed));
        let d = scatter(&mut seed) % 1_000_000 + 1;
        let a = Binary64::from_ratio(n, d).minus(Binary64::from_u32(m % 5000));
        let mut text = String::new();
        a.push_whole(&mut text);
        assert_eq!(text, format!("{:.0}", value(a)));
    }
    for (n, d, expected) in [(1u32, 2u32, "0"), (3, 2, "2"), (5, 2, "2"), (7, 2, "4"), (0, 1, "0")] {
        let mut text = String::from("=");
        Binary64::from_ratio(n, d).push_whole(&mut text);
        assert_eq!(text, format!("={}", expected));
    }
    let mut text = String::new();
    Binary64::from_ratio(1, 4).minus(Binary64::from_ratio(1, 2)).push_whole(&mut text);
    assert_eq!(text, "-0");
}

#[test]
fn rounding_keeps_the_order() {
    let mut last = Binary64::from_u32(0);
    for n in 1..3000u32 {
        let next = Binary64::from_ratio(n, 7);
        assert!(last.less_than(next));
        last = next;
    }
}
