use seqhist::decimal::append_decimal;

#[test]
fn decimal_matches_the_standard_rendering() {
    let samples: Vec<u128> = vec![
        0,
        1,
        9,
        10,
        11,
        99,
        100,
        101,
        1000,
        1099,
        65535,
        1234567890,
        u64::MAX as u128,
        u64::MAX as u128 + 1,
        u128::MAX,
    ];
    for n in samples {
        let mut text = String::new();
        append_decimal(&mut text, n);
        assert_eq!(text, n.to_string());
    }
}

#[test]
fn decimal_is_appended_to_what_is_there() {
    let mut text = String::from("0-");
    append_decimal(&mut text, 99);
    assert_eq!(text, "0-99");
    append_decimal(&mut text, 0);
    assert_eq!(text, "0-990");
}
