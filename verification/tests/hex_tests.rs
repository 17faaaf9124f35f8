use sprite_info::hex::to_lower_hex;

#[test]
fn hex_of_zero_is_a_single_digit() {
    assert_eq!(to_lower_hex(0), "0");
}

#[test]
fn hex_of_each_digit() {
    let digits = [
        "0", "1", "2", "3", "4", "5", "6", "7", "8", "9", "a", "b", "c", "d", "e", "f",
    ];
    let mut n: u64 = 0;
    while n < 16 {
        assert_eq!(to_lower_hex(n), digits[n as usize]);
        n += 1;
    }
}

#[test]
fn hex_has_no_leading_zeros_and_no_prefix() {
    assert_eq!(to_lower_hex(16), "10");
    assert_eq!(to_lower_hex(255), "ff");
    assert_eq!(to_lower_hex(256), "100");
    assert_eq!(to_lower_hex(0xdead_beef), "deadbeef");
    assert_eq!(to_lower_hex(0x0123_4567_89ab_cdef), "123456789abcdef");
}

#[test]
fn hex_of_the_largest_number() {
    assert_eq!(to_lower_hex(u64::MAX), "ffffffffffffffff");
}

#[test]
fn hex_agrees_with_the_standard_formatting() {
    let samples: [u64; 8] = [
        0,
        9,
        10,
        4_278_190_335,
        68_451_045_360,
        1 << 32,
        (1 << 63) + 12345,
        u64::MAX - 1,
    ];
    for n in samples {
        assert_eq!(to_lower_hex(n), format!("{:x}", n));
    }
}
