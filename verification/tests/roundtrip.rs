use fixed_display::display::{fmt_dec, fmt_radix2};
use fixed_display::estimate::{dec_frac_digits, dec_int_digits};
use fixed_display::radix::Radix2;

// Reads a radix-2^k digit string (no sign, no prefix) back into the
// decomposition it came from.
fn parse_radix2(s: &str, base: u128, w: u32) -> (u128, u128) {
    let mut parts = s.splitn(2, '.');
    let int_part = parts.next().unwrap();
    let frac_part = parts.next().unwrap_or("");
    let int_mag = u128::from_str_radix(int_part, base as u32).unwrap();
    let k = base.trailing_zeros();
    let mut frac_val: u128 = 0;
    let mut bits: u32 = 0;
    for c in frac_part.chars() {
        frac_val = frac_val * base + c.to_digit(base as u32).unwrap() as u128;
        bits += k;
    }
    // frac_val / base^digits == frac_mag / 2^w exactly
    let frac_mag = if bits >= w {
        frac_val >> (bits - w)
    } else {
        frac_val << (w - bits)
    };
    (int_mag, frac_mag)
}

// Every 8-bit magnitude survives a trip through each radix and back.
#[test]
fn radix2_roundtrip_u8() {
    for f in [0u32, 3, 5, 8] {
        for m in 0..=255u8 {
            let int_mag = if f == 8 { 0 } else { (m >> f) as u128 };
            let low = if f == 0 { 0 } else { (m as u128) & ((1u128 << f) - 1) };
            let frac_mag = low << (8 - f);
            for radix in [Radix2::Bin, Radix2::Oct, Radix2::LowHex, Radix2::UpHex] {
                let base: u128 = match radix {
                    Radix2::Bin => 2,
                    Radix2::Oct => 8,
                    _ => 16,
                };
                let s = fmt_radix2(8, f, false, int_mag, frac_mag, radix, false);
                let (i2, f2) = parse_radix2(&s, base, 8);
                assert_eq!((i2, f2), (int_mag, frac_mag), "radix {base} string {s}");
            }
        }
    }
}

// A 64-bit pattern survives the same trip.
#[test]
fn radix2_roundtrip_u64() {
    let bits = 0x1234_5678_9abc_def0u64;
    for f in [0u32, 7, 32, 64] {
        let int_mag = if f == 64 { 0 } else { (bits >> f) as u128 };
        let low = if f == 0 { 0 } else { (bits as u128) & ((1u128 << f) - 1) };
        let frac_mag = low << (64 - f);
        for radix in [Radix2::Bin, Radix2::Oct, Radix2::LowHex] {
            let base: u128 = match radix {
                Radix2::Bin => 2,
                Radix2::Oct => 8,
                _ => 16,
            };
            let s = fmt_radix2(64, f, false, int_mag, frac_mag, radix, false);
            let (i2, f2) = parse_radix2(&s, base, 64);
            assert_eq!((i2, f2), (int_mag, frac_mag), "radix {base} string {s}");
        }
    }
}

// With few enough fractional bits that 10^d > 2^f, the default decimal
// precision identifies every magnitude: parsing the printed text and
// rounding to the nearest 2^-f multiple recovers the value.
#[test]
fn dec_roundtrip_default_precision() {
    for f in [1u32, 2, 3] {
        assert!(10u64.pow(dec_frac_digits(f)) > 1 << f);
        for m in 0..=255u8 {
            let int_mag = (m >> f) as u128;
            let frac_mag = ((m as u128) & ((1u128 << f) - 1)) << (8 - f);
            let s = fmt_dec(8, f, false, int_mag, frac_mag, None);
            let parsed: f64 = s.parse().unwrap();
            let recovered = (parsed * (1u64 << f) as f64).round() as u16;
            assert_eq!(recovered, m as u16, "f {f} magnitude {m} printed {s}");
        }
    }
}

// The integer digit estimator matches the length of the largest value.
#[test]
fn int_digit_counts() {
    assert_eq!(dec_int_digits(0), 0);
    assert_eq!(dec_int_digits(1), 1);
    assert_eq!(dec_int_digits(4), 2);
    assert_eq!(dec_int_digits(8), 3);
    assert_eq!(dec_int_digits(16), 5);
    assert_eq!(dec_int_digits(32), 10);
    assert_eq!(dec_int_digits(64), 20);
    assert_eq!(dec_int_digits(128), 39);
    for b in 1..=64u32 {
        let max = if b == 64 { u64::MAX } else { (1u64 << b) - 1 };
        assert_eq!(dec_int_digits(b), max.to_string().len() as u32);
    }
}

// The fractional digit estimator gives the documented defaults.
#[test]
fn frac_digit_counts() {
    assert_eq!(dec_frac_digits(0), 0);
    assert_eq!(dec_frac_digits(1), 1);
    assert_eq!(dec_frac_digits(7), 2);
    assert_eq!(dec_frac_digits(8), 3);
    assert_eq!(dec_frac_digits(32), 10);
    assert_eq!(dec_frac_digits(64), 19);
    assert_eq!(dec_frac_digits(128), 39);
    // 0.5 * 10^-d < 2^-f <= 0.5 * 10^-(d-1), checked in integers
    for f in 1..=59u32 {
        let d = dec_frac_digits(f);
        assert!((1u128 << f) < 2 * 10u128.pow(d));
        assert!(2 * 10u128.pow(d - 1) <= (1u128 << f));
    }
}
