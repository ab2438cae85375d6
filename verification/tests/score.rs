use lzjd_batch::score::percent_of_bits;

fn by_floating_point(x: f64) -> u32 {
    (x * 100.).round() as u32
}

fn check(x: f64) {
    assert_eq!(
        percent_of_bits(x.to_bits()),
        by_floating_point(x),
        "similarity {:e} (bits {:#018x})",
        x,
        x.to_bits()
    );
}

#[test]
fn percent_of_exact_values() {
    assert_eq!(percent_of_bits(0f64.to_bits()), 0);
    assert_eq!(percent_of_bits(1f64.to_bits()), 100);
    assert_eq!(percent_of_bits(0.5f64.to_bits()), 50);
    assert_eq!(percent_of_bits(0.25f64.to_bits()), 25);
    assert_eq!(percent_of_bits(0.75f64.to_bits()), 75);
    assert_eq!(percent_of_bits(0.125f64.to_bits()), 13);
    assert_eq!(percent_of_bits(0.375f64.to_bits()), 38);
    assert_eq!(percent_of_bits(0.004f64.to_bits()), 0);
    assert_eq!(percent_of_bits(0.87f64.to_bits()), 87);
}

#[test]
fn percent_rounds_halves_away_from_zero() {
    assert_eq!(percent_of_bits(0.005f64.to_bits()), 1);
    assert_eq!(percent_of_bits(0.015f64.to_bits()), 2);
    assert_eq!(percent_of_bits(0.025f64.to_bits()), 3);
    assert_eq!(percent_of_bits(0.995f64.to_bits()), 100);
}

#[test]
fn percent_rounds_the_product_to_a_double_first() {
    // 0.615 lies below 123/200, but its product with 100 rounds to 61.5.
    assert_eq!(percent_of_bits(0.615f64.to_bits()), 62);
    // 0.285 lies below 57/200, and its product with 100 stays below 28.5.
    assert_eq!(percent_of_bits(0.285f64.to_bits()), 28);
    check(0.615);
    check(0.285);
    check(0.145);
    check(0.575);
}

#[test]
fn percent_of_what_is_no_fraction() {
    assert_eq!(percent_of_bits(f64::NAN.to_bits()), 0);
    assert_eq!(percent_of_bits((-f64::NAN).to_bits()), 0);
    assert_eq!(percent_of_bits(f64::INFINITY.to_bits()), u32::MAX);
    assert_eq!(percent_of_bits(f64::NEG_INFINITY.to_bits()), 0);
    assert_eq!(percent_of_bits((-0f64).to_bits()), 0);
    assert_eq!(percent_of_bits((-0.004f64).to_bits()), 0);
    assert_eq!(percent_of_bits((-1f64).to_bits()), 0);
    assert_eq!(percent_of_bits(2f64.to_bits()), 200);
    assert_eq!(percent_of_bits(f64::MAX.to_bits()), u32::MAX);
    assert_eq!(percent_of_bits(f64::MIN_POSITIVE.to_bits()), 0);
    assert_eq!(percent_of_bits(1u64), 0);
    assert_eq!(percent_of_bits((0f64 / 0f64).to_bits()), 0);
    check(f64::NAN);
    check(f64::INFINITY);
    check(f64::NEG_INFINITY);
    check(f64::MAX);
    check(f64::MIN);
    check(f64::MIN_POSITIVE);
    check(f64::EPSILON);
}

#[test]
fn percent_saturates_at_the_largest_score() {
    check(42949672.94);
    check(42949672.95);
    check(42949672.96);
    check(42949673.0);
    check(4294967295.0);
    check(4294967296.0);
    assert_eq!(percent_of_bits(42949672.94f64.to_bits()), 4294967294);
    assert_eq!(percent_of_bits(42949672.96f64.to_bits()), u32::MAX);
    assert_eq!(percent_of_bits(1e300f64.to_bits()), u32::MAX);
}

#[test]
fn percent_of_every_fraction_of_small_numbers() {
    for union in 1..=2100u32 {
        for shared in 0..=union {
            check(shared as f64 / union as f64);
        }
    }
}

#[test]
fn percent_next_to_every_half() {
    for k in 0..=1000u32 {
        let half = (k as f64 + 0.5) / 100.;
        let bits = half.to_bits();
        for near in bits.saturating_sub(8)..=bits + 8 {
            check(f64::from_bits(near));
        }
        let whole = k as f64 / 100.;
        let bits = whole.to_bits();
        for near in bits.saturating_sub(8)..=bits + 8 {
            check(f64::from_bits(near));
        }
    }
}

#[test]
fn percent_of_scattered_bit_patterns() {
    let mut state: u64 = 0x9e37_79b9_7f4a_7c15;
    for _ in 0..2_000_000 {
        state = state
            .wrapping_mul(6364136223846793005)
            .wrapping_add(1442695040888963407);
        let mixed = state ^ (state >> 29);
        check(f64::from_bits(mixed));
        // The same mantissa, near the exponents where scores are decided.
        let exponent = 1000 + (mixed >> 59);
        check(f64::from_bits((mixed & 0x000f_ffff_ffff_ffff) | (exponent << 52)));
        let exponent = 1020 + (mixed >> 58);
        check(f64::from_bits((mixed & 0x000f_ffff_ffff_ffff) | (exponent << 52)));
    }
}

#[test]
fn percent_of_the_smallest_doubles() {
    for bits in 0..100_000u64 {
        check(f64::from_bits(bits));
        check(f64::from_bits(0x0010_0000_0000_0000 - 1 - bits));
        check(f64::from_bits(0x0010_0000_0000_0000 + bits));
        check(f64::from_bits(0x7ff0_0000_0000_0000 - 1 - bits));
        check(f64::from_bits(0x7ff0_0000_0000_0000 + bits));
    }
}
