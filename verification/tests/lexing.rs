use orchidlang::frag::Frag;
use orchidlang::sourcefile::parse_line_with;
use orchidlang::context::MockContext;
use orchidlang::lex::{lex, try_lex_bail, try_lex_with, LexBail, LexError, LexErrorKind, LexerPlugins, NeverBail, NoLexerPlugins};
use orchidlang::lexer::EntryView;
use vstd::prelude::nat;
use vstd::seq::Seq;
use orchidlang::lexer::{namechar, namestart, opchar, split_filter, Atom, Entry, Lexeme, PHClass, PType, Placeholder};
use orchidlang::numeric::{NumErrorKind, Numeric};

fn lexemes(src: &str) -> Vec<Lexeme> {
    lex(vec![], src).expect("valid source").into_iter().map(|e| e.lexeme).collect()
}

fn name(s: &str) -> Lexeme {
    Lexeme::Name(s.to_string())
}

fn ph(name: &str, class: PHClass) -> Lexeme {
    Lexeme::Placeh(Placeholder { name: name.to_string(), class })
}

#[test]
fn lexes_a_constant() {
    let tokens = lex(vec![], "const x := 1").unwrap();
    let expected = vec![
        Entry { lexeme: name("const"), range: 0..5 },
        Entry { lexeme: name("x"), range: 6..7 },
        Entry { lexeme: Lexeme::Walrus, range: 8..10 },
        Entry { lexeme: Lexeme::Atom(Atom::Num(Numeric::Uint(1))), range: 11..12 },
    ];
    assert_eq!(tokens, expected);
}

#[test]
fn keeps_earlier_tokens() {
    let first = Entry { lexeme: Lexeme::BR, range: 0..0 };
    let tokens = lex(vec![first.clone()], "a").unwrap();
    assert_eq!(tokens, vec![first, Entry { lexeme: name("a"), range: 0..1 }]);
}

#[test]
fn fixed_tokens() {
    assert_eq!(
        lexemes("\\ @ ( [ { ) ] } := :: : ,"),
        vec![
            Lexeme::BS,
            Lexeme::At,
            Lexeme::LP(PType::Par),
            Lexeme::LP(PType::Sqr),
            Lexeme::LP(PType::Curl),
            Lexeme::RP(PType::Par),
            Lexeme::RP(PType::Sqr),
            Lexeme::RP(PType::Curl),
            Lexeme::Walrus,
            Lexeme::NS,
            Lexeme::Type,
            name(","),
        ]
    );
}

#[test]
fn names_and_operators() {
    assert_eq!(lexemes("foo_1 += ++bar"), vec![name("foo_1"), name("+="), name("++"), name("bar")]);
}

#[test]
fn comments_and_line_breaks() {
    assert_eq!(
        lexemes("a -- note\nb --[ block ]-- c"),
        vec![
            name("a"),
            Lexeme::Comment(" note".to_string()),
            Lexeme::BR,
            name("b"),
            Lexeme::Comment(" block ".to_string()),
            name("c"),
        ]
    );
}

#[test]
fn macro_arrow() {
    assert_eq!(lexemes("a =10=> b"), vec![name("a"), Lexeme::Arrow(Numeric::Uint(10)), name("b")]);
    assert_eq!(lexemes("a = b"), vec![name("a"), name("="), name("b")]);
}

#[test]
fn placeholders() {
    assert_eq!(
        lexemes("$x $_y ..$z ...$w:3"),
        vec![
            ph("x", PHClass::Scalar),
            ph("y", PHClass::Name),
            ph("z", PHClass::Vec { nonzero: false, prio: 0 }),
            ph("w", PHClass::Vec { nonzero: true, prio: 3 }),
        ]
    );
}

#[test]
fn string_literal_token() {
    let tokens = lex(vec![], "x \"ab\\n\"").unwrap();
    assert_eq!(tokens[1].lexeme, Lexeme::Atom(Atom::Str("ab\n".to_string())));
    assert_eq!(tokens[1].range, 4..8);
}

#[test]
fn empty_text_has_no_tokens() {
    assert!(lex(vec![], "   ").unwrap().is_empty());
}

#[test]
fn unclosed_block_comment() {
    let err = lex(vec![], "a --[ open").unwrap_err();
    assert_eq!(err.kind, LexErrorKind::NoCommentEnd);
    assert_eq!(err.range, 5..10);
}

#[test]
fn unclosed_string() {
    let err = lex(vec![], "\"abc").unwrap_err();
    assert_eq!(err.kind, LexErrorKind::NoStringEnd);
    assert_eq!(err.range, 1..4);
}

#[test]
fn float_placeholder_priority() {
    let err = lex(vec![], "..$x:1.5").unwrap_err();
    assert_eq!(err.kind, LexErrorKind::FloatPlacehPrio);
}

#[test]
fn bad_number() {
    let err = lex(vec![], "x 0b12").unwrap_err();
    assert_eq!(err.kind, LexErrorKind::Number(NumErrorKind::InvalidDigit));
}

#[test]
fn character_classes() {
    assert!(namestart('a') && namestart('_') && !namestart('1'));
    assert!(namechar('1') && namechar('é'));
    assert!(opchar('+') && opchar('$') && !opchar('(') && !opchar('a') && !opchar(' '));
}

#[test]
fn split_filter_splits_at_first_mismatch() {
    assert_eq!(split_filter("abc def", |c| c != ' '), ("abc", " def"));
    assert_eq!(split_filter("abc", |c| c != ' '), ("abc", ""));
}

#[test]
fn tokens_come_in_text_order_within_the_text() {
    let src = "const s := \"héllo\" --[ note ]--\nmacro ..$x:2 =0x1p3=> ($_y :: z, [1.5])";
    let tokens = lex(vec![], src).unwrap();
    assert!(!tokens.is_empty());
    for t in &tokens {
        assert!(t.range.start <= t.range.end);
        assert!(t.range.end <= src.len());
    }
    for pair in tokens.windows(2) {
        assert!(pair[0].range.end <= pair[1].range.start);
    }
}

#[test]
fn lexemes_print_as_written() {
    assert_eq!(name("foo").text().as_deref(), Some("foo"));
    assert_eq!(Lexeme::Walrus.text().as_deref(), Some(":="));
    assert_eq!(Lexeme::NS.text().as_deref(), Some("::"));
    assert_eq!(Lexeme::LP(PType::Sqr).text().as_deref(), Some("["));
    assert_eq!(Lexeme::RP(PType::Curl).text().as_deref(), Some("}"));
    assert_eq!(Lexeme::BR.text().as_deref(), Some("\n"));
    assert_eq!(Lexeme::BS.text().as_deref(), Some("\\"));
    assert_eq!(Lexeme::Comment(" hi ".to_string()).text().as_deref(), Some("--[ hi ]--"));
    assert_eq!(Lexeme::Atom(Atom::Num(Numeric::Uint(1))).text(), None);
    assert_eq!(Lexeme::Arrow(Numeric::Uint(1)).text(), None);
}

#[test]
fn mock_context_places_texts_at_half_the_address_space() {
    let ctx = MockContext::new();
    let m = usize::MAX / 2;
    assert_eq!(ctx.pos("abc"), m - 3);
    assert_eq!(ctx.pos(""), m);
    assert_eq!(ctx.range(2, "abc"), (m - 5)..(m - 3));
    assert!(!ctx.0.failing());
    let tokens = try_lex_with(vec![], "a b", &ctx.lexers()).unwrap().unwrap();
    assert_eq!(tokens.len(), 2);
    let tokens = lex(vec![], "mark").unwrap();
    assert!(parse_line_with(Frag::from_slice(&tokens), &ctx.line_parsers()).is_err());
}

struct Hashes;

impl LexerPlugins for Hashes {
    fn spec_lex(&self, _tail: Seq<char>, _offset: nat) -> Option<Result<(Seq<EntryView>, nat), LexError>> {
        unreachable!("only read by the verifier")
    }

    fn lex(&self, tail: &str, offset: usize) -> Option<Result<(Vec<Entry>, usize), LexError>> {
        if tail.starts_with("##") {
            Some(Err(LexError { kind: LexErrorKind::NoCommentEnd, range: offset..offset + 2 }))
        } else if tail.starts_with('#') {
            Some(Ok((vec![Entry { lexeme: name("hash"), range: offset..offset + 1 }], 1)))
        } else if tail.starts_with("12") {
            Some(Ok((vec![Entry { lexeme: name("twelve"), range: offset..offset + 2 }], 2)))
        } else {
            None
        }
    }
}

#[test]
fn lexer_plugins_are_tried_before_the_built_in_rules() {
    let tokens = try_lex_with(vec![], "a #b 12 3", &Hashes).unwrap().unwrap();
    let lexemes: Vec<Lexeme> = tokens.iter().map(|e| e.lexeme.clone()).collect();
    assert_eq!(lexemes, vec![name("a"), name("hash"), name("b"), name("twelve"), Lexeme::Atom(Atom::Num(Numeric::Uint(3)))]);
    assert_eq!(tokens[1].range, 2..3);
    assert_eq!(tokens[3].range, 5..7);
    let err = try_lex_with(vec![], "a ## b", &Hashes).unwrap().unwrap_err();
    assert_eq!(err.range, 2..4);
    let plain = try_lex_with(vec![], "a # b", &NoLexerPlugins).unwrap().unwrap();
    assert_eq!(plain[1].lexeme, name("#"));
}

struct CloseBrace {
    depth: usize,
}

impl LexBail for CloseBrace {
    fn spec_stop(self, _tail: Seq<char>) -> (Self, Result<bool, LexError>) {
        unreachable!("only read by the verifier")
    }

    fn stop(&mut self, tail: &str) -> Result<bool, LexError> {
        match tail.chars().next() {
            None => Err(LexError { kind: LexErrorKind::UnclosedInterpolation, range: 0..0 }),
            Some('{') => {
                self.depth += 1;
                Ok(false)
            },
            Some('}') if self.depth == 0 => Ok(true),
            Some('}') => {
                self.depth -= 1;
                Ok(false)
            },
            _ => Ok(false),
        }
    }
}

#[test]
fn the_bail_callback_stops_the_lexer() {
    let mut bail = CloseBrace { depth: 0 };
    let res = try_lex_bail(vec![], "a { b } c } d", &NoLexerPlugins, &mut bail).unwrap().unwrap();
    assert_eq!(res.tail, "} d");
    let lexemes: Vec<Lexeme> = res.tokens.iter().map(|e| e.lexeme.clone()).collect();
    assert_eq!(lexemes, vec![name("a"), Lexeme::LP(PType::Curl), name("b"), Lexeme::RP(PType::Curl), name("c")]);
    let mut bail = CloseBrace { depth: 0 };
    let err = try_lex_bail(vec![], "a b", &NoLexerPlugins, &mut bail).unwrap().unwrap_err();
    assert_eq!(err.kind, LexErrorKind::UnclosedInterpolation);
    let res = try_lex_bail(vec![], "a b  ", &NoLexerPlugins, &mut NeverBail).unwrap().unwrap();
    assert_eq!(res.tail, "");
    assert_eq!(res.tokens.len(), 2);
}
