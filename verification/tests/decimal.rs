use always_on_memory::binary64::Binary64;
use always_on_memory::decimal::{push_digits, push_fixed, push_integer, push_integer_list};

fn fixed(x: f64, places: u8) -> String {
    let mut text = String::new();
    push_fixed(&mut text, Binary64::from_bits(x.to_bits()), places);
    text
}

#[test]
fn fixed_decimals_are_those_of_format() {
    let mut state: u64 = 0x9e3779b97f4a7c15;
    let mut numbers: Vec<f64> = vec![
        0.0, -0.0, 0.5, 0.05, 0.005, 0.0005, 0.25, 0.125, 0.0625, 0.375, 1.0, -1.0, 2.5, 3.5, 0.9995, 0.99949999,
        999.9995, 1e15, 1e16, 1e17, 1e22, 1e23, 1.7976931348623157e308, 5e-324, 2.2250738585072014e-308, -1e-10,
        9007199254740992.0, 9007199254740993.0, 4503599627370496.5, 0.1, 0.2, 0.3, 123456.789,
    ];
    for _ in 0..400 {
        state ^= state << 13;
        state ^= state >> 7;
        state ^= state << 17;
        numbers.push(f64::from_bits(state));
        numbers.push((state >> 11) as f64 / (1u64 << 53) as f64);
        numbers.push((state >> 40) as f64 / 1000.0);
    }
    for x in numbers {
        assert_eq!(fixed(x, 1), format!("{x:.1}"));
        assert_eq!(fixed(x, 2), format!("{x:.2}"));
        assert_eq!(fixed(x, 3), format!("{x:.3}"));
    }
}

#[test]
fn numbers_that_are_none_have_names() {
    assert_eq!(fixed(f64::NAN, 3), "NaN");
    assert_eq!(fixed(f64::INFINITY, 3), "inf");
    assert_eq!(fixed(f64::NEG_INFINITY, 3), "-inf");
    assert_eq!(fixed(-0.0, 3), "-0.000");
}

#[test]
fn ties_go_to_the_even_decimal() {
    assert_eq!(fixed(0.125, 2), "0.12");
    assert_eq!(fixed(0.375, 2), "0.38");
    assert_eq!(fixed(0.25, 1), "0.2");
}

#[test]
fn integers_are_those_of_format() {
    for n in [0, 1, -1, 9, 10, 99, 100, 1234567890, i64::MAX, i64::MIN] {
        let mut text = String::from(">");
        push_integer(&mut text, n);
        assert_eq!(text, format!(">{n}"));
    }
    let mut text = String::new();
    push_digits(&mut text, u128::MAX);
    assert_eq!(text, format!("{}", u128::MAX));
}

#[test]
fn integer_lists_are_those_of_format() {
    for list in [vec![], vec![7], vec![1, -2, 3]] {
        let mut text = String::new();
        push_integer_list(&mut text, &list);
        assert_eq!(text, format!("{list:?}"));
    }
}
