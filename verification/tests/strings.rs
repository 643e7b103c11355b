use orchidlang::lexer::{Atom, Lexeme, PType};
use orchidlang::numeric::Numeric;
use orchidlang::string::{parse_string, StringErrorKind, StringLexer as PlainStringLexer};
use orchidlang::template::{StringLexer, TStringLexer};
use orchidlang::context::MockContext;
use orchidlang::lex::LexErrorKind;

fn name(s: &str) -> Lexeme {
    Lexeme::Name(s.to_string())
}

fn text(s: &str) -> Lexeme {
    Lexeme::Atom(Atom::Str(s.to_string()))
}

#[test]
fn string_plain_string() {
    let source = r#""Hello world!" - says the programmer"#;
    let mut ctx = MockContext::new();
    let res = (StringLexer.lex(&mut ctx.0, source))
        .expect("the snippet starts with a quote")
        .expect("it contains a valid string");
    let lexemes: Vec<Lexeme> = res.tokens.into_iter().map(|e| e.lexeme).collect();
    assert_eq!(lexemes, vec![text("Hello world!")]);
    assert_eq!(res.tail, " - says the programmer");
    assert!(!ctx.0.failing(), "No errors were generated")
}

#[test]
fn template_string() {
    let source = r#""I <${1 + 2} parsers" - this dev"#;
    let mut ctx = MockContext::new();
    let res = (StringLexer.lex(&mut ctx.0, source))
        .expect("the snippet starts with a quote")
        .expect("it contains a valid string");
    let expected = vec![
        Lexeme::LP(PType::Par),
        text("I <"),
        name("++"),
        name("std"),
        Lexeme::NS,
        name("string"),
        Lexeme::NS,
        name("convert"),
        Lexeme::LP(PType::Par),
        Lexeme::Atom(Atom::Num(Numeric::Uint(1))),
        name("+"),
        Lexeme::Atom(Atom::Num(Numeric::Uint(2))),
        Lexeme::RP(PType::Par),
        name("++"),
        text(" parsers"),
        Lexeme::RP(PType::Par),
    ];
    let lexemes: Vec<Lexeme> = res.tokens.into_iter().map(|e| e.lexeme).collect();
    assert_eq!(lexemes, expected);
    assert_eq!(res.tail, " - this dev");
    assert!(!ctx.0.failing(), "No errors were generated");
}

#[test]
fn plain_string() {
    let source = r#""hello world!" - says the programmer"#;
    let res = (PlainStringLexer.lex(source))
        .expect("the snippet starts with a quote")
        .expect("it contains a valid string");
    assert_eq!(res.tokens.len(), 1, "Expected a single atom");
    assert_eq!(res.tokens[0].lexeme, text("hello world!"));
    assert_eq!(res.tail, " - says the programmer");
}

#[test]
fn escapes_are_decoded() {
    assert_eq!(parse_string(r#"a\nb\t\\\/\""#), Ok("a\nb\t\\/\"".to_string()));
    assert_eq!(parse_string(r"\u0041"), Ok("A".to_string()));
    assert_eq!(parse_string(r"\b"), Ok("\u{8}".to_string()));
}

#[test]
fn escaped_line_break_skips_indentation() {
    assert_eq!(parse_string("a\\\n    b"), Ok("ab".to_string()));
}

#[test]
fn bad_escape_is_reported() {
    let err = parse_string(r"ab\q").unwrap_err();
    assert_eq!(err.kind, StringErrorKind::BadEscSeq);
    assert_eq!(err.pos, 3);
}

#[test]
fn short_unicode_escape_is_not_hex() {
    let err = parse_string(r"\u12").unwrap_err();
    assert_eq!(err.kind, StringErrorKind::NotHex);
    let err = parse_string(r"\u00g1").unwrap_err();
    assert_eq!(err.kind, StringErrorKind::NotHex);
}

#[test]
fn surrogate_escape_is_a_bad_code_point() {
    let err = parse_string(r"\ud800").unwrap_err();
    assert_eq!(err.kind, StringErrorKind::BadCodePoint);
}

#[test]
fn template_string_reports_bad_escapes() {
    let mut ctx = MockContext::new();
    let res = StringLexer.lex(&mut ctx.0, r#""a\qb" x"#).unwrap().unwrap();
    let lexemes: Vec<Lexeme> = res.tokens.into_iter().map(|e| e.lexeme).collect();
    assert_eq!(lexemes, vec![text("")]);
    assert!(ctx.0.failing());
    assert_eq!(ctx.0.errors().len(), 1);
    assert_eq!(ctx.0.errors()[0].kind, LexErrorKind::String(StringErrorKind::BadEscSeq));
    assert_eq!(ctx.0.errors()[0].range, 3..4);
}

#[test]
fn unclosed_template_string() {
    let mut ctx = MockContext::new();
    let err = StringLexer.lex(&mut ctx.0, r#""abc"#).unwrap().unwrap_err();
    assert_eq!(err.kind, LexErrorKind::NoStringEnd);
    assert_eq!(err.range, 0..4);
}

#[test]
fn unclosed_interpolation() {
    let mut ctx = MockContext::new();
    let err = StringLexer.lex(&mut ctx.0, r#""a${1 + "#).unwrap().unwrap_err();
    assert_eq!(err.kind, LexErrorKind::UnclosedInterpolation);
    assert_eq!(err.range, 2..4);
}

#[test]
fn nested_braces_in_interpolation() {
    let mut ctx = MockContext::new();
    let res = StringLexer.lex(&mut ctx.0, r#""${ {1} }""#).unwrap().unwrap();
    let lexemes: Vec<Lexeme> = res.tokens.into_iter().map(|e| e.lexeme).collect();
    assert_eq!(lexemes[9], Lexeme::LP(PType::Curl));
    assert_eq!(lexemes[11], Lexeme::RP(PType::Curl));
    assert_eq!(res.tail, "");
}

#[test]
fn tstring_converts_with_to_string() {
    let res = TStringLexer.lex(r#"$"n=${x}" rest"#).unwrap().unwrap();
    let lexemes: Vec<Lexeme> = res.tokens.into_iter().map(|e| e.lexeme).collect();
    let expected = vec![
        Lexeme::LP(PType::Par),
        text("n="),
        name("++"),
        name("std"),
        Lexeme::NS,
        name("conv"),
        Lexeme::NS,
        name("to_string"),
        Lexeme::LP(PType::Par),
        name("x"),
        Lexeme::RP(PType::Par),
        name("++"),
        text(""),
        Lexeme::RP(PType::Par),
    ];
    assert_eq!(lexemes, expected);
    assert_eq!(res.tail, " rest");
    assert!(TStringLexer.lex(r#""plain""#).is_none());
}

#[test]
fn tstring_fails_on_bad_escape() {
    let err = TStringLexer.lex(r#"$"\q""#).unwrap().unwrap_err();
    assert_eq!(err.kind, LexErrorKind::String(StringErrorKind::BadEscSeq));
    let err = TStringLexer.lex(r#"$"abc"#).unwrap().unwrap_err();
    assert_eq!(err.kind, LexErrorKind::NoTStringEnd);
}
