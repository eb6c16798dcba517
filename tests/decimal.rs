use sensor_alert::decimal::Reading;

fn r(s: &str) -> Reading {
    Reading::parse(s).unwrap()
}

#[test]
fn parse_accepts_signed_decimals() {
    for s in ["0", "-1", "+2", "3.", ".4", "-.5", "12.75"] {
        assert!(Reading::parse(s).is_some(), "{}", s);
    }
}

#[test]
fn parse_rejects_malformed() {
    for s in ["", "+", "-", ".", "1.2.3", "1e5", "--1", "1+", " 1", "abc"] {
        assert!(Reading::parse(s).is_none(), "{}", s);
    }
}

#[test]
fn comparison_is_exact() {
    assert!(r("26").exceeds(&r("25.0")));
    assert!(!r("25.0").exceeds(&r("25")));
    assert!(!r("25").exceeds(&r("25.000")));
    assert!(r("25.001").exceeds(&r("25")));
    assert!(!r("24.999").exceeds(&r("25")));
    assert!(r("100").exceeds(&r("99.99")));
    assert!(r("007").exceeds(&r("6.9")));
}

#[test]
fn comparison_with_signs() {
    assert!(r("-1").exceeds(&r("-2")));
    assert!(!r("-2").exceeds(&r("-1")));
    assert!(r("0.1").exceeds(&r("-5")));
    assert!(!r("-0.1").exceeds(&r("0")));
    assert!(!r("0").exceeds(&r("-0.0")));
    assert!(!r("-0").exceeds(&r("0")));
    assert!(r("0.0").exceeds(&r("-0.001")));
}

#[test]
fn zero_and_text() {
    assert!(r("-0.00").is_zero());
    assert!(!r("0.01").is_zero());
    assert_eq!(String::from_utf8(r("-.25").text()).unwrap(), "-0.25");
    assert_eq!(String::from_utf8(r("+30.0").text()).unwrap(), "30");
    assert_eq!(String::from_utf8(r("-0.0").text()).unwrap(), "0");
    assert_eq!(String::from_utf8(r("007.100").text()).unwrap(), "7.1");
    assert_eq!(String::from_utf8(r("000").text()).unwrap(), "0");
}

#[test]
fn same_value_gives_same_text() {
    for s in ["25", "025.000", "+25.0", "25."] {
        assert_eq!(String::from_utf8(r(s).text()).unwrap(), "25", "{}", s);
    }
    for s in ["0", "-0", "+.0", "-000.000"] {
        assert_eq!(String::from_utf8(r(s).text()).unwrap(), "0", "{}", s);
    }
    assert_eq!(String::from_utf8(r("-.50").text()).unwrap(), "-0.5");
}
