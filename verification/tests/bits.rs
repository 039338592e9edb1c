use chip8::bits::{check_bit_64, check_bit_8, from_bit_array, num_bits, set_bit_64, set_bit_8};
use chip8::stack::Stack;

#[test]
fn check_bit_64_counts_from_the_left() {
    assert!(check_bit_64(1u64 << 63, 0));
    assert!(!check_bit_64(1u64 << 63, 1));
    assert!(check_bit_64(1, 63));
    assert!(!check_bit_64(1, 62));
}

#[test]
fn set_bit_64_then_check_gives_the_value_set() {
    let mut row = 0u64;
    set_bit_64(&mut row, 5, true);
    assert_eq!(row, 1u64 << 58);
    assert!(check_bit_64(row, 5));
    assert!(!check_bit_64(row, 4));
    set_bit_64(&mut row, 5, false);
    assert_eq!(row, 0);
    let mut full = u64::MAX;
    set_bit_64(&mut full, 0, false);
    assert_eq!(full, u64::MAX >> 1);
}

#[test]
fn check_and_set_bit_8() {
    assert!(check_bit_8(0x80, 0));
    assert!(check_bit_8(0x01, 7));
    assert!(!check_bit_8(0x01, 6));
    let mut b = 0u8;
    set_bit_8(&mut b, 0, true);
    set_bit_8(&mut b, 7, true);
    assert_eq!(b, 0x81);
    set_bit_8(&mut b, 0, false);
    assert_eq!(b, 0x01);
    assert!(check_bit_8(b, 7));
}

#[test]
fn from_bit_array_packs_first_flag_highest() {
    let bits = [true, false, false, false, false, false, false, true];
    assert_eq!(from_bit_array(&bits), 0x81);
    let bits = [false, true, true, false, true, false, true, false, true];
    assert_eq!(from_bit_array(&bits), 0b0110_1010);
    for i in 0..8u8 {
        assert_eq!(check_bit_8(0b0110_1010, i), bits[i as usize]);
    }
}

#[test]
fn num_bits_is_the_bit_length() {
    assert_eq!(num_bits(0), 0);
    assert_eq!(num_bits(1), 1);
    assert_eq!(num_bits(2), 2);
    assert_eq!(num_bits(3), 2);
    assert_eq!(num_bits(4), 3);
    assert_eq!(num_bits(7), 3);
    assert_eq!(num_bits(8), 4);
    assert_eq!(num_bits(63), 6);
    assert_eq!(num_bits(64), 7);
    assert_eq!(num_bits(127), 7);
    assert_eq!(num_bits(128), 8);
    assert_eq!(num_bits(255), 8);
}

#[test]
fn stack_pop_returns_last_push() {
    let mut s = Stack::new();
    assert_eq!(s.len(), 0);
    s.push(0x200);
    s.push(0x300);
    assert_eq!(s.len(), 2);
    assert_eq!(s.pop(), 0x300);
    assert_eq!(s.len(), 1);
    assert_eq!(s.pop(), 0x200);
    assert_eq!(s.len(), 0);
}

#[test]
fn stack_holds_sixteen_addresses() {
    let mut s = Stack::new();
    for k in 0..16usize {
        s.push(k * 2);
    }
    assert_eq!(s.len(), 16);
    for k in (0..16usize).rev() {
        assert_eq!(s.pop(), k * 2);
    }
}

