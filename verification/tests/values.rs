use interp::value::Value;
use interp::fraction::Fraction;

#[test]
fn basic_print_test() {
    let v1 = Value::from_u64(12, 5);
    println!("12 with bit width 5: {}", v1.as_u64());
    assert_eq!(v1.as_u64(), 12);
}

#[test]
fn basic_print_test2() {
    let v1 = Value::from_u64(33, 6);
    println!("33 with bit width 6: {}", v1.as_u64());
    assert_eq!(v1.as_u64(), 33);
}

#[test]
fn too_few_bits() {
    let v_16_4 = Value::from_u64(16, 4);
    println!("16 with bit width 4: {}", v_16_4.as_u64());
    assert_eq!(v_16_4.as_u64(), 0);
    let v_31_4 = Value::from_u64(31, 4);
    println!("31 with bit width 4: {}", v_31_4.as_u64());
    let v_15_4 = Value::from_u64(15, 4);
    println!("15 with bit width 4: {}", v_15_4.as_u64());
    assert_eq!(v_31_4.as_u64(), v_15_4.as_u64());
}

#[test]
fn ext() {
    let v_15_4 = Value::from_u64(15, 4);
    assert_eq!(v_15_4.as_u64(), v_15_4.ext(8).as_u64());
}

// ---------------- unsigned fixed point ----------------

#[test]
fn values_test_zero() {
    assert_eq!(
        Value::from_u64(0b000, 3).to_unsigned_fixed_point(3),
        Fraction::new(0, 1)
    );
}

#[test]
fn values_test_zero_fractional_width() {
    assert_eq!(
        Value::from_u64(0b1110, 4).to_unsigned_fixed_point(0),
        Fraction::new(14, 1)
    );
}

#[test]
fn values_test_high_bits_set() {
    assert_eq!(
        Value::from_u64(0b1110, 4).to_unsigned_fixed_point(2),
        Fraction::new(7, 2)
    );
}

#[test]
fn values_test_middle_bits_set() {
    assert_eq!(
        Value::from_u64(0b0110, 4).to_unsigned_fixed_point(2),
        Fraction::new(3, 2)
    );
}

#[test]
fn values_test_low_bits_set() {
    assert_eq!(
        Value::from_u64(0b0111, 4).to_unsigned_fixed_point(2),
        Fraction::new(7, 4)
    );
}

#[test]
fn values_test_low_high_bits_set() {
    assert_eq!(
        Value::from_u64(0b1001, 4).to_unsigned_fixed_point(2),
        Fraction::new(9, 4)
    );
}

#[test]
fn test_32bit_fractional_value() {
    assert_eq!(
        Value::from_u64(1, 32).to_unsigned_fixed_point(31),
        Fraction::new(1, 2147483648)
    );
}

#[test]
fn test_64bit_fractional_value() {
    assert_eq!(
        Value::from_u64(1, 64).to_unsigned_fixed_point(63),
        Fraction::new(1, 9223372036854775808)
    );
}

#[test]
fn values_test_alternating_ones() {
    assert_eq!(
        Value::from_u64(0b10101, 5).to_unsigned_fixed_point(3),
        Fraction::new(21, 8)
    );
}

#[test]
fn values_test_all_ones() {
    assert_eq!(
        Value::from_u64(0b1111, 4).to_unsigned_fixed_point(3),
        Fraction::new(15, 8)
    );
}

// ---------------- signed fixed point ----------------

#[test]
fn signed_test_zero() {
    assert_eq!(
        Value::from_u64(0b000, 3).to_signed_fixed_point(3),
        Fraction::new(0, 1)
    );
}

#[test]
fn signed_test_zero_fractional_width() {
    assert_eq!(
        Value::from_u64(0b1110, 4).to_signed_fixed_point(0),
        Fraction::new_neg(2, 1)
    );
}

#[test]
fn signed_test_high_bits_set() {
    // 0b1110 reads as -2 at width 4; over 2^2 that reduces to -1/2
    assert_eq!(
        Value::from_u64(0b1110, 4).to_signed_fixed_point(2),
        Fraction::new_neg(1, 2)
    );
}

#[test]
fn signed_fixed_point_spec_example() {
    assert_eq!(
        Value::from_u64(0b1001, 4).to_signed_fixed_point(2),
        Fraction::new_neg(7, 4)
    );
}

#[test]
fn signed_test_middle_bits_set() {
    assert_eq!(
        Value::from_u64(0b0110, 4).to_signed_fixed_point(2),
        Fraction::new(3, 2)
    );
}

#[test]
fn signed_test_low_bits_set() {
    assert_eq!(
        Value::from_u64(0b0111, 4).to_signed_fixed_point(2),
        Fraction::new(7, 4)
    );
}

#[test]
fn test_mixed_bits_set() {
    // 0b10110101 reads as -75 in two's complement at width 8
    assert_eq!(
        Value::from_u64(0b10110101, 8).to_signed_fixed_point(3),
        Fraction::new_neg(75, 8)
    );
}

#[test]
fn test_mixed_bits_set2() {
    // 0b10100011 reads as -93 at width 8
    assert_eq!(
        Value::from_u64(0b10100011, 8).to_signed_fixed_point(4),
        Fraction::new_neg(93, 16)
    );
}

#[test]
fn test_mixed_bits_set3() {
    // 0b11111101 reads as -3 at width 8
    assert_eq!(
        Value::from_u64(0b11111101, 8).to_signed_fixed_point(4),
        Fraction::new_neg(3, 16)
    );
}

#[test]
fn signed_test_low_high_bits_set() {
    // 0b1001 reads as -7 at width 4
    assert_eq!(
        Value::from_u64(0b1001, 4).to_signed_fixed_point(3),
        Fraction::new_neg(7, 8)
    );
}

#[test]
fn test_single_bit_set() {
    // only bit 31 set at width 32: the value is -2^31, the fraction is -1
    assert_eq!(
        Value::from_u64(1 << 31, 32).to_signed_fixed_point(31),
        Fraction::new_neg(1, 1)
    );
}

#[test]
fn test_small_negative_value() {
    // bits 31 and 0 set at width 32: the value is -(2^31 - 1)
    assert_eq!(
        Value::from_u64((1 << 31) + 1, 32).to_signed_fixed_point(31),
        Fraction::new_neg(2147483647, 2147483648)
    );
}

#[test]
fn signed_test_alternating_ones() {
    // 0b10101 reads as -11 at width 5
    assert_eq!(
        Value::from_u64(0b10101, 5).to_signed_fixed_point(3),
        Fraction::new_neg(11, 8)
    );
}

#[test]
fn signed_test_all_ones() {
    assert_eq!(
        Value::from_u64(0b1111, 4).to_signed_fixed_point(3),
        Fraction::new_neg(1, 8)
    );
}

// ---------------- round trips and width behavior ----------------

#[test]
fn round_trip_native_widths() {
    assert_eq!(Value::from_u64(u64::MAX, 64).as_u64(), u64::MAX);
    assert_eq!(Value::from_u128(u128::MAX, 128).as_u128(), u128::MAX);
    assert_eq!(Value::from_i128(i64::MAX as i128, 64).as_i64(), i64::MAX);
    assert_eq!(Value::from_i128(i64::MIN as i128, 64).as_i64(), i64::MIN);
    assert_eq!(Value::from_i128(i128::MIN, 128).as_i128(), i128::MIN);
    assert_eq!(Value::from_i128(-1, 8).as_u64(), 255);
}

#[test]
fn big_integer_round_trip() {
    // a 150-bit pattern survives the bits round trip exactly
    let mut bits = Vec::new();
    for i in 0..150usize {
        bits.push(i % 3 == 0 || i % 7 == 0);
    }
    let v = Value::from_bits(bits.clone());
    assert_eq!(v.to_bits(), bits);
}

#[test]
fn big_product_exact() {
    // (2^64 - 1)^2 fits in 128 bits and is computed without loss
    let a = Value::from_u128(u64::MAX as u128, 128);
    let b = Value::from_u128(u64::MAX as u128, 128);
    let p = a.multiply(&b);
    assert_eq!(p.as_u128(), (u64::MAX as u128) * (u64::MAX as u128));
}

#[test]
fn add_sub_wraparound() {
    let a = Value::from_u64(255, 8);
    let one = Value::from_u64(1, 8);
    assert_eq!(a.add(&one).as_u64(), 0);
    let z = Value::from_u64(0, 8);
    assert_eq!(z.subtract(&one).as_u64(), 255);
    assert_eq!(Value::from_u64(13, 8).add(&Value::from_u64(29, 8)).as_u64(), 42);
}

#[test]
fn shifts_and_boundary() {
    let v = Value::from_u64(0b1011, 4);
    assert_eq!(v.shift_left(&Value::from_u64(1, 4)).as_u64(), 0b0110);
    assert_eq!(v.shift_right(&Value::from_u64(1, 4)).as_u64(), 0b0101);
    // amounts at or beyond the width shift everything out
    assert_eq!(v.shift_left(&Value::from_u64(4, 4)).as_u64(), 0);
    assert_eq!(v.shift_right(&Value::from_u64(9, 4)).as_u64(), 0);
    // arithmetic shift fills with the sign bit
    let neg = Value::from_i128(-8, 8);
    assert_eq!(neg.arithmetic_shift_right(&Value::from_u64(2, 8)).as_i64(), -2);
    assert_eq!(neg.arithmetic_shift_right(&Value::from_u64(100, 8)).as_i64(), -1);
    let pos = Value::from_u64(8, 8);
    assert_eq!(pos.arithmetic_shift_right(&Value::from_u64(2, 8)).as_u64(), 2);
}

#[test]
fn bitwise_ops() {
    let a = Value::from_u64(0b1100, 4);
    let b = Value::from_u64(0b1010, 4);
    assert_eq!(a.and(&b).as_u64(), 0b1000);
    assert_eq!(a.or(&b).as_u64(), 0b1110);
    assert_eq!(a.xor(&b).as_u64(), 0b0110);
    assert_eq!(a.not().as_u64(), 0b0011);
}

#[test]
fn comparisons() {
    let a = Value::from_u64(200, 8);
    let b = Value::from_u64(3, 8);
    assert!(a.is_greater(&b));
    assert!(b.is_less(&a));
    assert!(a.is_greater_or_equal(&a));
    assert!(a.is_less_or_equal(&a));
    assert!(a.is_equal(&a));
    assert!(a.is_not_equal(&b));
    // 200 at width 8 reads as -56 signed, so the signed order flips
    assert!(a.is_less_signed(&b));
    assert!(b.is_greater_signed(&a));
    assert!(a.is_less_or_equal_signed(&b));
    assert!(b.is_greater_or_equal_signed(&a));
}

#[test]
fn truncate_ext_sext_concat() {
    let v = Value::from_u64(0b101101, 6);
    assert_eq!(v.truncate(4).as_u64(), 0b1101);
    assert_eq!(v.ext(10).as_u64(), 0b101101);
    let neg = Value::from_i128(-3, 4);
    assert_eq!(neg.sext(8).as_i64(), -3);
    assert_eq!(neg.sext(8).as_u64(), 0b11111101);
    let hi = Value::from_u64(0b10, 2);
    let lo = Value::from_u64(0b01, 2);
    let cat = Value::concat(&hi, &lo);
    assert_eq!(cat.width(), 4);
    assert_eq!(cat.as_u64(), 0b1001);
}

#[test]
fn unsigned_division() {
    let a = Value::from_u64(23, 8);
    let b = Value::from_u64(5, 8);
    assert_eq!(a.divide(&b).as_u64(), 4);
    assert_eq!(a.remainder(&b).as_u64(), 3);
}

#[test]
fn floored_signed_modulo() {
    // width-8 representations of -7 and 3: the floored remainder is 2,
    // not the truncating remainder -1
    let a = Value::from_i128(-7, 8);
    let b = Value::from_i128(3, 8);
    assert_eq!(a.signed_mod(&b).as_i64(), 2);
    assert_eq!(a.divide_signed(&b).as_i64(), -2);
    // signs reversed: -2 mod -3 stays consistent in sign with the divisor
    let c = Value::from_i128(7, 8);
    let d = Value::from_i128(-3, 8);
    assert_eq!(c.signed_mod(&d).as_i64(), -2);
    assert_eq!(c.divide_signed(&d).as_i64(), -2);
    // same signs: the plain remainder
    assert_eq!(c.signed_mod(&b).as_i64(), 1);
}
