use ready_set_boole::bitops::{adder, gray_code, multiplier};

#[test]
fn test_adder() {
    assert_eq!(adder(0, 0), 0);
    assert_eq!(adder(1, 0), 1);
    assert_eq!(adder(0, 1), 1);
    assert_eq!(adder(42, 42), 84);
    assert_eq!(adder(100000, 1), 100001);
    assert_eq!(
        adder(3000000000, 3000000000),
        3000000000u32.wrapping_add(3000000000)
    );
}

#[test]
fn test_multiplier() {
    assert_eq!(multiplier(9, 5), 45);
    assert_eq!(multiplier(0, 0), 0);
    assert_eq!(multiplier(1, 0), 0);
    assert_eq!(multiplier(0, 1), 0);
    assert_eq!(multiplier(10, 10), 100);
    assert_eq!(multiplier(100, 100), 10000);
    assert_eq!(
        multiplier(1000000, 1000000),
        1000000u32.wrapping_mul(1000000u32)
    );
}

#[test]
fn test_gray_code() {
    assert_eq!(gray_code(0), 0);
    assert_eq!(gray_code(1), 1);
    assert_eq!(gray_code(2), 3);
    assert_eq!(gray_code(3), 2);
    assert_eq!(gray_code(4), 6);
    assert_eq!(gray_code(5), 7);
    assert_eq!(gray_code(6), 5);
    assert_eq!(gray_code(7), 4);
    assert_eq!(gray_code(8), 12);
}

#[test]
fn adder_carries_across_the_whole_word() {
    assert_eq!(adder(u32::MAX, 1), 0);
    assert_eq!(adder(u32::MAX, u32::MAX), u32::MAX.wrapping_add(u32::MAX));
    assert_eq!(adder(0x0F0F_0F0F, 0x00F0_F0F1), 0x1000_0000);
}

#[test]
fn multiplier_wraps_like_multiplication() {
    assert_eq!(multiplier(0x1_0000, 0x1_0000), 0);
    assert_eq!(multiplier(u32::MAX, 3), u32::MAX.wrapping_mul(3));
    assert_eq!(multiplier(123456789, 987654321), 123456789u32.wrapping_mul(987654321));
}
