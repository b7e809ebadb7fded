use pagebump::allocator::DummyAllocator;
use pagebump::io::{count_digits, get_next_digit, print, Integer, Printable, UInteger};

fn sink(a: &mut DummyAllocator) -> pagebump::text::String {
    pagebump::text::String { vec: pagebump::buffer::Vec::with_capacity(a, 4) }
}

#[test]
fn count_digits_values() {
    assert_eq!(count_digits(0u64), 1);
    assert_eq!(count_digits(9u8), 1);
    assert_eq!(count_digits(10u16), 2);
    assert_eq!(count_digits(98765u32), 5);
    assert_eq!(count_digits(1000usize), 4);
    assert_eq!(count_digits(u64::MAX), 20);
}

#[test]
fn pow_values() {
    assert_eq!(UInteger::pow(10u64, 3), 1000);
    assert_eq!(UInteger::pow(2u32, 10), 1024);
    assert_eq!(UInteger::pow(7u16, 0), 1);
    assert_eq!(UInteger::pow(0u64, 5), 0);
    assert_eq!(UInteger::pow(255u8, 1), 255);
}

#[test]
fn digits_of_a_plain_number() {
    let mut a = DummyAllocator::new();
    let mut out = sink(&mut a);
    get_next_digit(98765u64, &mut a, &mut out);
    assert_eq!(out.as_slice(&a), b"98765");
}

#[test]
fn digits_with_inner_zeros() {
    let mut a = DummyAllocator::new();
    let mut out = sink(&mut a);
    get_next_digit(1000u32, &mut a, &mut out);
    get_next_digit(0u8, &mut a, &mut out);
    get_next_digit(50007u64, &mut a, &mut out);
    assert_eq!(out.as_slice(&a), b"1000050007");
}

#[test]
fn digits_of_the_largest_u64() {
    let mut a = DummyAllocator::new();
    let mut out = sink(&mut a);
    get_next_digit(u64::MAX, &mut a, &mut out);
    assert_eq!(out.as_slice(&a), b"18446744073709551615");
}

#[test]
fn print_appends_text() {
    let mut a = DummyAllocator::new();
    let mut out = sink(&mut a);
    print("abc", &mut a, &mut out);
    print("", &mut a, &mut out);
    print("def", &mut a, &mut out);
    assert_eq!(out.as_slice(&a), b"abcdef");
}

#[test]
fn println_appends_a_newline() {
    let mut a = DummyAllocator::new();
    let mut out = sink(&mut a);
    pagebump::io::println(42u64, &mut a, &mut out);
    assert_eq!(out.as_slice(&a), b"42\n");
}

#[test]
fn signed_numbers_get_a_sign() {
    let mut a = DummyAllocator::new();
    let mut out = sink(&mut a);
    print(-123i64, &mut a, &mut out);
    print(0i64, &mut a, &mut out);
    print(456i64, &mut a, &mut out);
    assert_eq!(out.as_slice(&a), b"-1230456");
}

#[test]
fn the_extremes_of_i64() {
    let mut a = DummyAllocator::new();
    let mut out = sink(&mut a);
    pagebump::io::println(i64::MIN, &mut a, &mut out);
    pagebump::io::println(i64::MAX, &mut a, &mut out);
    assert_eq!(out.as_slice(&a), b"-9223372036854775808\n9223372036854775807\n");
}

#[test]
fn a_text_buffer_prints_its_own_contents() {
    let mut a = DummyAllocator::new();
    let mut t = pagebump::text::String::from(&mut a, "Hello");
    t.push(&mut a, " world!");
    let mut out = sink(&mut a);
    pagebump::io::println(t, &mut a, &mut out);
    assert_eq!(out.as_slice(&a), b"Hello world!\n");
}

#[test]
fn printable_renders_through_the_trait() {
    let mut a = DummyAllocator::new();
    let mut out = sink(&mut a);
    7u8.print(&mut a, &mut out);
    // the std inherent pow would shadow the trait's; call it explicitly
    let big = UInteger::pow(10u64, 19);
    big.print(&mut a, &mut out);
    assert_eq!(out.as_slice(&a), b"710000000000000000000");
}

#[test]
fn integer_magnitudes() {
    assert_eq!(Integer::abs(-5i32), 5);
    assert_eq!(Integer::abs(7i8), 7);
    assert_eq!(Integer::abs(0u64), 0);
    assert_eq!(Integer::as_unsigned(&5i16), 5u16);
    assert_eq!(Integer::as_unsigned(&250u8), 250u8);
    assert_eq!(<i64 as Integer>::min_value(), i64::MIN);
    assert_eq!(<u32 as Integer>::min_value(), 0);
}

#[test]
fn narrow_signed_types_render_like_i64() {
    let mut a = DummyAllocator::new();
    let mut out = sink(&mut a);
    print(-128i8, &mut a, &mut out);
    print(-1i16, &mut a, &mut out);
    print(32767i16, &mut a, &mut out);
    print(-2147483648i32, &mut a, &mut out);
    print(-9isize, &mut a, &mut out);
    assert_eq!(out.as_slice(&a), b"-128-132767-2147483648-9");
}

#[test]
fn a_byte_buffer_prints_each_element() {
    let mut a = DummyAllocator::new();
    let mut b = pagebump::buffer::Vec::with_capacity(&mut a, 4);
    b.push_slice(&mut a, &[0, 7, 255, 10]);
    let mut out = sink(&mut a);
    print(b, &mut a, &mut out);
    assert_eq!(out.as_slice(&a), b"0725510");
}

#[test]
fn a_byte_slice_prints_each_element() {
    let mut a = DummyAllocator::new();
    let mut out = sink(&mut a);
    let data: [u8; 3] = [1, 0, 200];
    print(&data[..], &mut a, &mut out);
    assert_eq!(out.as_slice(&a), b"10200");
}
