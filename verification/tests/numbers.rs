use interpreter_starter_rust::number::{
    num_add, num_div, num_eq, num_format, num_format_literal, num_from_u64, num_is_integral,
    num_le, num_lt, num_mul, num_neg, num_parse_literal,
};

fn text(v: Vec<char>) -> String {
    v.into_iter().collect()
}

fn bits(x: f64) -> u64 {
    x.to_bits()
}

/// A small deterministic generator of varied binary64 encodings.
fn samples() -> Vec<u64> {
    let mut out = vec![
        bits(0.0),
        bits(-0.0),
        bits(1.0),
        bits(-1.0),
        bits(0.1),
        bits(0.2),
        bits(0.3),
        bits(1.5),
        bits(2.5),
        bits(3.0),
        bits(1e21),
        bits(1e-7),
        bits(123.456),
        bits(f64::MAX),
        bits(f64::MIN_POSITIVE),
        bits(5e-324),
        bits(f64::INFINITY),
        bits(f64::NEG_INFINITY),
        bits(f64::NAN),
        bits(4.666666666666667),
        bits(9007199254740993.0),
    ];
    let mut state: u64 = 0x243f_6a88_85a3_08d3;
    for _ in 0..300 {
        state = state.wrapping_mul(6364136223846793005).wrapping_add(1442695040888963407);
        out.push(state);
        let small = (state >> 11) % 2000;
        out.push(bits(small as f64 / 8.0));
    }
    out
}

fn same(ours: u64, std: f64) -> bool {
    if std.is_nan() {
        f64::from_bits(ours).is_nan()
    } else {
        ours == std.to_bits()
    }
}

#[test]
fn arithmetic_agrees_with_ieee() {
    let xs = samples();
    for (i, &a) in xs.iter().enumerate() {
        let b = xs[(i * 7 + 3) % xs.len()];
        let (fa, fb) = (f64::from_bits(a), f64::from_bits(b));
        assert!(same(num_add(a, b), fa + fb), "add {:e} {:e}", fa, fb);
        assert!(same(num_add(a, num_neg(b)), fa - fb), "sub {:e} {:e}", fa, fb);
        assert!(same(num_mul(a, b), fa * fb), "mul {:e} {:e}", fa, fb);
        assert!(same(num_div(a, b), fa / fb), "div {:e} {:e}", fa, fb);
        assert_eq!(num_lt(a, b), fa < fb);
        assert_eq!(num_le(a, b), fa <= fb);
        assert_eq!(num_eq(a, b), fa == fb);
    }
}

#[test]
fn formatting_agrees_with_display() {
    for a in samples() {
        let f = f64::from_bits(a);
        if f.abs() < 1e40 || !f.is_finite() {
            assert_eq!(format!("{}", f), text(num_format(a)), "{:e}", f);
        }
    }
}

#[test]
fn formatting_exact_values() {
    assert_eq!("0.30000000000000004", text(num_format(num_add(bits(0.1), bits(0.2)))));
    assert_eq!("4.666666666666667", text(num_format(num_div(bits(14.0), bits(3.0)))));
    assert_eq!("1000000000000000000000", text(num_format(bits(1e21))));
    assert_eq!("0.0000001", text(num_format(bits(1e-7))));
    assert_eq!("-0", text(num_format(bits(-0.0))));
    assert_eq!("NaN", text(num_format(num_div(bits(0.0), bits(0.0)))));
    assert_eq!("inf", text(num_format(num_div(bits(1.0), bits(0.0)))));
    assert_eq!("-inf", text(num_format(num_div(bits(-1.0), bits(0.0)))));
    assert_eq!("12.0", text(num_format_literal(bits(12.0))));
    assert_eq!("2.5", text(num_format_literal(bits(2.5))));
    assert_eq!("0.0", text(num_format_literal(bits(0.0))));
}

#[test]
fn parsing_agrees_with_std() {
    let literals = [
        "0", "1", "42", "123.456", "0.1", "3.14159265358979323846264338327950288",
        "9007199254740993", "179769313486231570000000000000000000000000000000000000000000000000000000000000000000000000000000000000000000000000000000000000000000000000000000000000000000000000000000000000000000000000000000000000000000000000000000000000000000000000000000000000000000000000000000000000000000000000000000000000000000000000",
        "0.000000000000000000000000000000000000000000000000000000000000000000000000000000000000000000000000000000000000000000000000000000000000000000000000000000000000000000000000000000000000000000000000000000000000000000000000000000000000000000000000000000000000000000000000000000000000000000000000000000000000000000000049406564584124654",
        "2.2250738585072011",
    ];
    for s in literals.iter() {
        let v: Vec<char> = s.chars().collect();
        let expected: f64 = s.parse().unwrap();
        assert_eq!(expected.to_bits(), num_parse_literal(&v), "{}", s);
    }
}

#[test]
fn integers_and_integral_values() {
    assert_eq!(bits(0.0), num_from_u64(0));
    assert_eq!(bits(12345.0), num_from_u64(12345));
    assert_eq!(bits(18446744073709551615.0), num_from_u64(u64::MAX));
    assert!(num_is_integral(bits(3.0)));
    assert!(num_is_integral(bits(-0.0)));
    assert!(!num_is_integral(bits(2.5)));
    assert!(!num_is_integral(bits(f64::INFINITY)));
    assert!(!num_is_integral(bits(f64::NAN)));
}

#[test]
fn negation_is_involutive() {
    for a in samples() {
        assert_eq!(a, num_neg(num_neg(a)));
    }
}

#[test]
fn addition_and_multiplication_commute() {
    let xs = samples();
    for (i, &a) in xs.iter().enumerate() {
        let b = xs[(i * 13 + 5) % xs.len()];
        assert_eq!(num_add(a, b), num_add(b, a));
        assert_eq!(num_mul(a, b), num_mul(b, a));
    }
}

#[test]
fn parsing_far_out_of_range() {
    let mut big = String::from("1");
    for _ in 0..400 {
        big.push('0');
    }
    let v: Vec<char> = big.chars().collect();
    assert_eq!(f64::INFINITY.to_bits(), num_parse_literal(&v));
    let mut tiny = String::from("0.");
    for _ in 0..400 {
        tiny.push('0');
    }
    tiny.push('1');
    let v: Vec<char> = tiny.chars().collect();
    assert_eq!(0, num_parse_literal(&v));
    let v: Vec<char> = "0.000".chars().collect();
    assert_eq!(0, num_parse_literal(&v));
}

#[test]
fn parsing_more_than_eight_hundred_digits() {
    // One, then a nonzero digit far past the 800th: still one.
    let mut s = String::from("1.");
    for _ in 0..850 {
        s.push('0');
    }
    s.push('1');
    let v: Vec<char> = s.chars().collect();
    assert_eq!(bits(1.0), num_parse_literal(&v));
    // Just above the midpoint between 2^53 and 2^53 + 2: rounds up.
    let mut s = String::from("9007199254740993.");
    for _ in 0..850 {
        s.push('0');
    }
    s.push('1');
    let v: Vec<char> = s.chars().collect();
    let expected: f64 = s.parse().unwrap();
    assert_eq!(bits(9007199254740994.0), expected.to_bits());
    assert_eq!(expected.to_bits(), num_parse_literal(&v));
}

#[test]
fn integers_below_two_to_fifty_three_print_as_decimal_integers() {
    for &n in &[1u64, 7, 10, 100, 1234567, 4503599627370497, 9007199254740991] {
        let f = n as f64;
        assert_eq!(n.to_string(), text(num_format(bits(f))));
        assert_eq!(format!("-{}", n), text(num_format(bits(-f))));
        assert_eq!(format!("{}", f), text(num_format(bits(f))));
    }
    assert_eq!("9007199254740992", text(num_format(bits(9007199254740992.0))));
    assert_eq!("3.0", text(num_format_literal(bits(3.0))));
    assert_eq!("2.5", text(num_format_literal(bits(2.5))));
}
