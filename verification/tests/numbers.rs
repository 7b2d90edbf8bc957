//! Numbers as text.

use vyges_est::number::{fmt_g, fmt_g17, read_sci, Decimal};

fn decimal(v: f64, p: usize) -> Decimal {
    if v.is_nan() {
        Decimal::Nan
    } else if v.is_infinite() {
        Decimal::Infinite { negative: v < 0.0 }
    } else if v == 0.0 {
        Decimal::Zero { negative: v.is_sign_negative() }
    } else {
        read_sci(&format!("{:.*e}", p - 1, v), p).expect("scientific notation")
    }
}

fn g17(v: f64) -> String {
    fmt_g17(&decimal(v, 17))
}

fn g6(v: f64) -> String {
    fmt_g(&decimal(v, 6), 6)
}

#[test]
fn g17_matches_c() {
    assert_eq!(g17(166666.671875), "166666.671875");
    assert_eq!(g17(6516000.0), "6516000");
    assert_eq!(g17(1.3272000165542863e-10), "1.3272000165542863e-10");
    assert_eq!(g17(0.0), "0");
}

#[test]
fn six_digits_are_fixed_or_scientific() {
    assert_eq!(g6(0.001), "0.001");
    assert_eq!(g6(0.0001), "0.0001");
    assert_eq!(g6(0.00001), "1e-05");
    assert_eq!(g6(123456.0), "123456");
    assert_eq!(g6(1234567.0), "1.23457e+06");
    assert_eq!(g6(-2.5), "-2.5");
    assert_eq!(g6(1.0), "1");
    assert_eq!(g6(999999.5), "1e+06");
    assert_eq!(g6(1e100), "1e+100");
}

#[test]
fn what_is_no_number_has_a_name() {
    assert_eq!(g6(f64::NAN), "nan");
    assert_eq!(g6(f64::INFINITY), "inf");
    assert_eq!(g6(f64::NEG_INFINITY), "-inf");
    assert_eq!(g6(-0.0), "-0");
}

#[test]
fn scientific_notation_is_read() {
    assert_eq!(
        read_sci("-1.50e-3", 3),
        Some(Decimal::Finite { negative: true, digits: vec![1, 5, 0], exponent: -3 })
    );
    assert_eq!(
        read_sci("7e12", 1),
        Some(Decimal::Finite { negative: false, digits: vec![7], exponent: 12 })
    );
    for s in ["", "1.5", "1.50e", "15e3", "0.00e0", "1.5e3", "1.50e3x", "NaN"] {
        assert_eq!(read_sci(s, 3), None, "{s}");
    }
}

#[test]
fn a_precision_of_nothing_counts_as_one() {
    let g0 = |v: f64| fmt_g(&decimal(v, 1), 0);
    assert_eq!(g0(5.0), "5");
    assert_eq!(g0(0.02), "0.02");
    assert_eq!(g0(40.0), "4e+01");
    assert_eq!(g0(0.0), "0");
    assert_eq!(g0(5.0), fmt_g(&decimal(5.0, 1), 1));
}

#[test]
fn seventeen_digits_keep_values_apart() {
    let values = [
        0.1,
        0.10000000000000002,
        1.0,
        1.0000000000000002,
        10.0,
        100.0,
        1e16,
        1e17,
        1e-4,
        1e-5,
        -0.1,
        0.0,
        -0.0,
        f64::MAX,
        f64::MIN_POSITIVE,
    ];
    for (i, a) in values.iter().enumerate() {
        assert_eq!(g17(*a).parse::<f64>().unwrap().to_bits(), a.to_bits());
        for b in &values[..i] {
            assert_ne!(g17(*a), g17(*b));
        }
    }
}

#[test]
fn a_mantissa_has_no_loose_end() {
    for v in [1.0, 10.0, 120.0, 0.5, 1e20, 1.5e-9, 1e-4, 123456.0, 999999.5] {
        for text in [g17(v), g6(v)] {
            let m = text.split('e').next().unwrap();
            assert!(!m.ends_with('.'), "{m}");
            assert!(!m.contains('.') || !m.ends_with('0'), "{m}");
        }
    }
}
