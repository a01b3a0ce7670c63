use fixed_display::display::{fmt_dec, fmt_radix2};
use fixed_display::radix::Radix2;

#[test]
fn hex() {
    let frac: u32 = 7;
    for i in 0..(1u32 << frac) {
        let p = 0x1234_5678_9abc_def0u64 ^ i as u64;
        let n = -0x1234_5678_9abc_def0i64 ^ i as i64;
        let p_int = (p >> frac) as u128;
        let p_frac = ((p & 0x7f) as u128) << (64 - frac);
        let out_p = fmt_radix2(64, frac, false, p_int, p_frac, Radix2::LowHex, false);
        assert_eq!(
            out_p,
            format!("{:x}.{:02x}", p >> frac, (p & 0x7f) << 1)
        );
        let mag = n.abs() as u64;
        let n_int = (mag >> frac) as u128;
        let n_frac = ((mag & 0x7f) as u128) << (64 - frac);
        let out_n = fmt_radix2(64, frac, n < 0, n_int, n_frac, Radix2::LowHex, false);
        assert_eq!(
            out_n,
            format!("-{:x}.{:02x}", n.abs() >> frac, (n.abs() & 0x7f) << 1)
        );
    }
}

#[test]
fn dec() {
    let frac: u32 = 7;
    for i in 0..(1u32 << frac) {
        let bits = !0u32 ^ i;
        let flt = bits as f64 / (frac as f64).exp2();
        let int_mag = (bits >> frac) as u128;
        let frac_mag = ((bits & 0x7f) as u128) << (32 - frac);
        let out = fmt_dec(32, frac, false, int_mag, frac_mag, None);
        assert_eq!(out, format!("{:.2}", flt));
    }
}

// A fraction exactly at the half boundary rounds towards the even digit:
// 0.25 at one digit is a tie between 0.2 and 0.3 and takes the even 0.2.
#[test]
fn half_rounds_down_to_even() {
    // 8-bit register, frac_bits = 2, magnitude 1: the value 0.25
    let out = fmt_dec(8, 2, false, 0, 0b0100_0000, Some(1));
    assert_eq!(out, "0.2");
}

// 0.75 at one digit is a tie between 0.7 and 0.8 and takes the even 0.8.
#[test]
fn half_rounds_up_to_even() {
    // 8-bit register, frac_bits = 2, magnitude 3: the value 0.75
    let out = fmt_dec(8, 2, false, 0, 0b1100_0000, Some(1));
    assert_eq!(out, "0.8");
}

// Rounding up through a run of nines grows the integer part by a digit.
#[test]
fn carry_grows_integer_part() {
    // 16-bit register, frac_bits = 8: the value 99 + 255/256 = 99.996...
    let out = fmt_dec(16, 8, false, 99, 255 << 8, Some(1));
    assert_eq!(out, "100.0");
}

// A carry can also grow a zero integer part: 0.96 rounds to 1.0.
#[test]
fn carry_grows_zero_integer_part() {
    // 8-bit register, frac_bits = 8: the value 245/256 = 0.957...
    let out = fmt_dec(8, 8, false, 0, 245, Some(1));
    assert_eq!(out, "1.0");
}

// Precision beyond frac_bits adds no information and changes nothing.
#[test]
fn precision_is_capped_at_frac_bits() {
    let int_mag = 5u128;
    let frac_mag = (0x55u128) << 25;
    let exact = fmt_dec(32, 7, false, int_mag, frac_mag, Some(7));
    for p in 8..40usize {
        assert_eq!(fmt_dec(32, 7, false, int_mag, frac_mag, Some(p)), exact);
    }
}

#[test]
fn zero_without_fraction() {
    assert_eq!(fmt_dec(8, 0, false, 0, 0, None), "0");
}

#[test]
fn zero_with_precision() {
    assert_eq!(fmt_dec(8, 7, false, 0, 0, Some(2)), "0.00");
}

// An all-ones 8-bit register with frac_bits = 7 is 255/128 = 1.9921875,
// which at the default two digits rounds to 1.99.
#[test]
fn all_ones_default_precision() {
    let bits = 0xffu8;
    let int_mag = (bits >> 7) as u128;
    let frac_mag = ((bits & 0x7f) as u128) << 1;
    assert_eq!(fmt_dec(8, 7, false, int_mag, frac_mag, None), "1.99");
}

#[test]
fn negative_decimal() {
    let bits = 0xffu8;
    let int_mag = (bits >> 7) as u128;
    let frac_mag = ((bits & 0x7f) as u128) << 1;
    assert_eq!(fmt_dec(8, 7, true, int_mag, frac_mag, None), "-1.99");
}

#[test]
fn binary_with_prefix() {
    // 8-bit register, frac_bits = 4: the value 0b1010.0101
    let out = fmt_radix2(8, 4, false, 0b1010, 0b0101_0000, Radix2::Bin, true);
    assert_eq!(out, "0b1010.0101");
}

#[test]
fn octal_with_prefix() {
    // 8-bit register, frac_bits = 3: the value 0o17.5
    let out = fmt_radix2(8, 3, false, 0o17, 5 << 5, Radix2::Oct, true);
    assert_eq!(out, "0o17.5");
}

#[test]
fn upper_hex() {
    // 16-bit register, frac_bits = 8: the value 0xAB.CD
    let out = fmt_radix2(16, 8, false, 0xab, 0xcd00, Radix2::UpHex, true);
    assert_eq!(out, "0xAB.CD");
}

#[test]
fn binary_zero_integer_bits() {
    // frac_bits equal to the width: the integer part is a bare zero
    let out = fmt_radix2(8, 8, false, 0, 0b1100_0000, Radix2::Bin, false);
    assert_eq!(out, "0.11000000");
}

// The widest register: fractional digits come out of a 128-bit fraction
// through the two-halves multiply.
#[test]
fn decimal_full_width_half() {
    let out = fmt_dec(128, 128, false, 0, 1u128 << 127, Some(3));
    assert_eq!(out, "0.500");
}

#[test]
fn decimal_full_width_carry() {
    // (2^128 - 1) / 2^128 at two digits rounds up to 1.00
    let out = fmt_dec(128, 128, false, 0, u128::MAX, Some(2));
    assert_eq!(out, "1.00");
}

#[test]
fn hex_full_width_integer() {
    let out = fmt_radix2(128, 0, false, u128::MAX, 0, Radix2::LowHex, false);
    assert_eq!(out, "f".repeat(32));
}

#[test]
fn binary_full_width_fraction() {
    let out = fmt_radix2(128, 128, false, 0, u128::MAX, Radix2::Bin, false);
    assert_eq!(out, format!("0.{}", "1".repeat(128)));
}

#[test]
fn decimal_zero_precision_truncates() {
    // 1.992... at zero fractional digits prints the integer part alone
    let out = fmt_dec(8, 7, false, 1, 0xfe, Some(0));
    assert_eq!(out, "1");
}
