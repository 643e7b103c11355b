use orchidlang::numeric::{numchar, numstart, parse_num, try_parse_num, FloatLiteral, NumErrorKind, Numeric, NumericLexer};

/// The value of a decoded literal in floating point, computed the way the
/// embedder computes it.
fn as_f64(n: Numeric) -> f64 {
    match n {
        Numeric::Uint(u) => u as f64,
        Numeric::Float(FloatLiteral::Scaled { mantissa, radix, exponent }) => {
            (mantissa as f64) * (radix as f64).powi(exponent)
        },
        Numeric::Float(FloatLiteral::Dotted { whole, frac, frac_len, radix, exponent }) => {
            let real = whole as f64 + (frac as f64 / (radix as f64).powi(frac_len as i32));
            real * (radix as f64).powi(exponent)
        },
    }
}

#[test]
fn just_ints() {
    let test = |s: &str, n: usize| assert_eq!(parse_num(s), Ok(Numeric::Uint(n)));
    test("12345", 12345);
    test("0xcafebabe", 0xcafebabe);
    test("0o751", 0o751);
    test("0b111000111", 0b111000111);
}

#[test]
fn decimals() {
    let test = |s: &str, n: f64| assert_eq!(parse_num(s).map(as_f64), Ok(n));
    test("3.1417", 3.1417);
    test("3.1417", 3_f64 + 1417_f64 / 10000_f64);
    test("0xf.cafe", 0xf as f64 + 0xcafe as f64 / 0x10000 as f64);
    test("34p3", 34000f64);
    test("0x2p3", (0x2 * 0x1000) as f64);
    test("1.5p3", 1500f64);
    test("0x2.5p3", (0x25 * 0x100) as f64);
}

#[test]
fn positive_exponent_stays_integer() {
    assert_eq!(parse_num("34p3"), Ok(Numeric::Uint(34000)));
    assert_eq!(parse_num("0x2p3"), Ok(Numeric::Uint(0x2000)));
}

#[test]
fn negative_exponent_is_scaled() {
    assert_eq!(
        parse_num("5p-1"),
        Ok(Numeric::Float(FloatLiteral::Scaled { mantissa: 5, radix: 10, exponent: -1 }))
    );
}

#[test]
fn dotted_literal_keeps_its_digits() {
    assert_eq!(
        parse_num("1.5p3"),
        Ok(Numeric::Float(FloatLiteral::Dotted { whole: 1, frac: 5, frac_len: 1, radix: 10, exponent: 3 }))
    );
}

#[test]
fn underscores_are_separators() {
    assert_eq!(parse_num("1_000"), Ok(Numeric::Uint(1000)));
}

#[test]
fn invalid_digit_is_reported() {
    let err = parse_num("0b102").unwrap_err();
    assert_eq!(err.kind, NumErrorKind::InvalidDigit);
}

#[test]
fn overflow_is_reported() {
    let err = parse_num("99999999999999999999999999").unwrap_err();
    assert_eq!(err.kind, NumErrorKind::Overflow);
    let err = parse_num("99999999999p10").unwrap_err();
    assert_eq!(err.kind, NumErrorKind::Overflow);
    assert_eq!(err.range, 0..14);
}

#[test]
fn unrepresentable_power_is_scaled() {
    assert_eq!(
        parse_num("1p30"),
        Ok(Numeric::Float(FloatLiteral::Scaled { mantissa: 1, radix: 10, exponent: 30 }))
    );
}

#[test]
fn number_characters() {
    assert!(numstart('4'));
    assert!(!numstart('a'));
    assert!(numchar('a'));
    assert!(numchar('_'));
    assert!(numchar('.'));
    assert!(!numchar(' '));
}

#[test]
fn numeric_lexer_reads_a_literal() {
    let res = NumericLexer.lex("0x1f rest").expect("starts with a digit").expect("valid");
    assert_eq!(res.tail, " rest");
    assert_eq!(res.tokens.len(), 1);
    assert_eq!(res.tokens[0].range, 0..4);
    assert!(NumericLexer.lex("x").is_none());
}

#[test]
fn zero_times_an_infinite_power_is_nan() {
    let err = parse_num("0p400").unwrap_err();
    assert_eq!(err.kind, NumErrorKind::NaN);
    assert_eq!(err.range, 0..5);
    assert!(matches!(parse_num("5p400"), Ok(Numeric::Float(_))));
}

#[test]
fn nan_starts_where_the_power_leaves_f64() {
    // below each threshold the power is finite, from it on it is infinite
    for (prefix, radix, t) in [("0b", 2u8, 1024i32), ("0o", 8, 342), ("", 10, 309), ("0x", 16, 256)] {
        assert!((radix as f64).powi(t - 1).is_finite());
        assert!((radix as f64).powi(t).is_infinite());
        let below = format!("{prefix}0p{}", t - 1);
        assert_eq!(
            parse_num(&below),
            Ok(Numeric::Float(FloatLiteral::Scaled { mantissa: 0, radix, exponent: t - 1 }))
        );
        assert!(!as_f64(parse_num(&below).unwrap()).is_nan());
        let at = format!("{prefix}0p{t}");
        assert_eq!(parse_num(&at).unwrap_err().kind, NumErrorKind::NaN);
        assert!(((0 as f64) * (radix as f64).powi(t)).is_nan());
    }
}

#[test]
fn dotted_nan_is_not_decoded() {
    assert!(try_parse_num("0.0p400").is_none());
    assert!(try_parse_num("0.0p308").is_some());
    assert!(matches!(try_parse_num("0.5p400"), Some(Ok(Numeric::Float(_)))));
}
