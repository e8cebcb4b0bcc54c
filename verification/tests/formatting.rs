use plancost::format::thousands;

#[test]
fn format_zero() {
    assert_eq!(thousands(0), "0");
}

#[test]
fn format_thousand() {
    assert_eq!(thousands(1000), "1,000");
}

#[test]
fn format_negative() {
    assert_eq!(thousands(-1234567), "-1,234,567");
}

#[test]
fn format_small() {
    assert_eq!(thousands(999), "999");
}

#[test]
fn format_sign_outside_grouping() {
    assert_eq!(thousands(-123456), "-123,456");
}

#[test]
fn format_large() {
    assert_eq!(thousands(9223372036854775807), "9,223,372,036,854,775,807");
    assert_eq!(thousands(-9223372036854775808), "-9,223,372,036,854,775,808");
}

#[test]
fn format_roundtrip_samples() {
    let samples: Vec<i64> = vec![
        0,
        5,
        -5,
        999,
        1000,
        -1000,
        123456789,
        -123456,
        9223372036854775807,
        -9223372036854775808,
    ];
    for n in samples {
        let formatted = thousands(n);
        let stripped: String = formatted.chars().filter(|c| *c != ',').collect();
        let reparsed: i64 = stripped.parse().unwrap();
        assert_eq!(reparsed, n);
    }
}
