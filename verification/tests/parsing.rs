use orchidlang::errors::{ParseError, ParseErrorKind, ParseErrorView};
use orchidlang::frag::FragView;
use vstd::seq::Seq;
use orchidlang::facade::{parse_entries, parse_expr, parse_file, try_parse_file, ProjectError};
use orchidlang::frag::Frag;
use orchidlang::lex::{lex, try_lex, LexErrorKind};
use orchidlang::sourcefile::{parse_line, parse_line_with, parse_module_body_with, LineParsers, NoLineParsers};
use orchidlang::lexer::{Atom, Lexeme, PType};
use orchidlang::numeric::Numeric;
use orchidlang::parsed::{Clause, Expr, MemberKind, SourceLineKind, SourceLineKindView};

fn parse_error(src: &str) -> ParseErrorKind {
    match parse_file(src) {
        Err(ProjectError::Parse(e)) => e.kind,
        other => panic!("expected a parse error, got {other:?}"),
    }
}

fn name_of(e: &Expr) -> Vec<String> {
    match &e.value {
        Clause::Name(s) => s.iter(),
        other => panic!("not a name: {other:?}"),
    }
}

#[test]
fn parses_a_constant() {
    let lines = parse_file("const main := 1 + 2\n").unwrap();
    assert_eq!(lines.len(), 1);
    assert_eq!(lines[0].range, 0..19);
    match &lines[0].kind {
        SourceLineKind::Member(m) => {
            assert!(!m.exported);
            match &m.kind {
                MemberKind::Constant(c) => {
                    assert_eq!(c.name, "main");
                    assert_eq!(c.value.range, 14..19);
                    match &c.value.value {
                        Clause::S(PType::Par, v) => {
                            assert_eq!(v.len(), 3);
                            assert!(matches!(v[0].value, Clause::Atom(Atom::Num(Numeric::Uint(1)))));
                            assert_eq!(name_of(&v[1]), vec!["+".to_string()]);
                        },
                        other => panic!("{other:?}"),
                    }
                },
                other => panic!("{other:?}"),
            }
        },
        other => panic!("{other:?}"),
    }
}

#[test]
fn single_expression_is_not_wrapped() {
    let lines = parse_file("const x := y").unwrap();
    match &lines[0].kind {
        SourceLineKind::Member(m) => match &m.kind {
            MemberKind::Constant(c) => assert_eq!(name_of(&c.value), vec!["y".to_string()]),
            other => panic!("{other:?}"),
        },
        other => panic!("{other:?}"),
    }
}

#[test]
fn empty_file() {
    assert!(parse_file("").unwrap().is_empty());
    assert!(parse_file("\n\n").unwrap().is_empty());
}

#[test]
fn import_line() {
    let lines = parse_file("import std::(a, b::c, *)").unwrap();
    match &lines[0].kind {
        SourceLineKind::Import(v) => {
            assert_eq!(v.len(), 3);
            let summary: Vec<(Option<String>, Vec<String>)> =
                v.iter().map(|i| (i.name.clone(), i.path.0.clone())).collect();
            assert!(summary.contains(&(Some("a".to_string()), vec!["std".to_string()])));
            assert!(summary.contains(&(Some("c".to_string()), vec!["std".to_string(), "b".to_string()])));
            assert!(summary.contains(&(None, vec!["std".to_string()])));
        },
        other => panic!("{other:?}"),
    }
}

#[test]
fn export_list() {
    let lines = parse_file("export ::(a, b)").unwrap();
    match &lines[0].kind {
        SourceLineKind::Export(v) => {
            let names: Vec<&str> = v.iter().map(|(n, _)| n.as_str()).collect();
            assert_eq!(names.len(), 2);
            assert!(names.contains(&"a") && names.contains(&"b"));
        },
        other => panic!("{other:?}"),
    }
}

#[test]
fn exported_member() {
    let lines = parse_file("export const x := 1").unwrap();
    match &lines[0].kind {
        SourceLineKind::Member(m) => assert!(m.exported),
        other => panic!("{other:?}"),
    }
}

#[test]
fn submodule() {
    let lines = parse_file("module m (\n  const x := 1\n  const y := 2\n)").unwrap();
    match &lines[0].kind {
        SourceLineKind::Member(m) => match &m.kind {
            MemberKind::Module(b) => {
                assert_eq!(b.name, "m");
                assert_eq!(b.body.len(), 2);
            },
            other => panic!("{other:?}"),
        },
        other => panic!("{other:?}"),
    }
}

#[test]
fn macro_rule() {
    let lines = parse_file("macro a ..$x =0x1p3=> (b ..$x)").unwrap();
    match &lines[0].kind {
        SourceLineKind::Member(m) => match &m.kind {
            MemberKind::Rule(r) => {
                assert_eq!(r.prio, Numeric::Uint(4096));
                assert_eq!(r.pattern.len(), 2);
                assert_eq!(r.template.len(), 1);
            },
            other => panic!("{other:?}"),
        },
        other => panic!("{other:?}"),
    }
}

#[test]
fn comment_lines_are_trimmed_away() {
    let lines = parse_file("--[| doc |]--\n-- plain\nconst x := 1").unwrap();
    assert_eq!(lines.len(), 1);
    assert!(matches!(lines[0].kind, SourceLineKind::Member(_)));
}

#[test]
fn doc_comment_at_the_start_of_a_line() {
    let tokens = lex(vec![], "--[| doc |]-- const x := 1").unwrap();
    let kinds = parse_line(Frag::from_slice(&tokens)).unwrap();
    assert_eq!(kinds.len(), 1);
    match &kinds[0] {
        SourceLineKind::Comment(c) => assert_eq!(c, " doc "),
        other => panic!("{other:?}"),
    }
    let tokens = lex(vec![], "-- plain\nconst x := 1").unwrap();
    let kinds = parse_line(Frag::from_slice(&tokens)).unwrap();
    assert!(matches!(kinds[0], SourceLineKind::Member(_)));
}

#[test]
fn parenthesized_line_is_unwrapped() {
    let lines = parse_file("(const x := 1)").unwrap();
    assert!(matches!(lines[0].kind, SourceLineKind::Member(_)));
}

#[test]
fn line_breaks_inside_parentheses_do_not_split() {
    let lines = parse_file("const x := (1\n 2)\nconst y := 3").unwrap();
    assert_eq!(lines.len(), 2);
}

#[test]
fn lambda_expression() {
    let e = parse_expr("\\x. x y", 3..9).unwrap();
    match &e.value {
        Clause::Lambda(arg, body) => {
            assert_eq!(arg.len(), 1);
            assert_eq!(body.len(), 2);
        },
        other => panic!("{other:?}"),
    }
}

#[test]
fn namespaced_name() {
    let e = parse_expr("a::b::c", 3..9).unwrap();
    assert_eq!(name_of(&e), vec!["a".to_string(), "b".to_string(), "c".to_string()]);
    assert_eq!(e.range, 3..9);
}

#[test]
fn bracketed_groups() {
    let e = parse_expr("[a] {b}", 3..9).unwrap();
    match &e.value {
        Clause::S(PType::Par, v) => {
            assert!(matches!(v[0].value, Clause::S(PType::Sqr, _)));
            assert!(matches!(v[1].value, Clause::S(PType::Curl, _)));
        },
        other => panic!("{other:?}"),
    }
}

#[test]
fn expression_errors() {
    let kind = |src: &str| match parse_expr(src, 3..9) {
        Err(ProjectError::Parse(e)) => e.kind,
        other => panic!("expected a parse error, got {other:?}"),
    };
    assert_eq!(kind("\\x x"), ParseErrorKind::NotFound("A '.'"));
    assert_eq!(kind("::a"), ParseErrorKind::LeadingNS);
    assert_eq!(kind("a::"), ParseErrorKind::UnexpectedEOL(Lexeme::NS));
    assert_eq!(kind("a :: 1"), ParseErrorKind::ExpectedName(Lexeme::Atom(Atom::Num(Numeric::Uint(1)))));
    assert_eq!(kind("a )"), ParseErrorKind::MisalignedParen(Lexeme::RP(PType::Par)));
    assert_eq!(kind("(a ]"), ParseErrorKind::MisalignedParen(Lexeme::RP(PType::Sqr)));
    assert_eq!(kind("@"), ParseErrorKind::ReservedToken(Lexeme::At));
    assert_eq!(kind("a : b"), ParseErrorKind::ReservedToken(Lexeme::Type));
    assert_eq!(kind("a := b"), ParseErrorKind::BadTokenInRegion { lexeme: Lexeme::Walrus, region: "expression" });
}

#[test]
fn line_errors() {
    assert_eq!(parse_error("const := 1"), ParseErrorKind::ExpectedName(Lexeme::Walrus));
    assert_eq!(
        parse_error("foo bar"),
        ParseErrorKind::BadTokenInRegion { lexeme: Lexeme::Name("foo".to_string()), region: "start of line" }
    );
    assert_eq!(parse_error("export ::(a::b)"), ParseErrorKind::NamespacedExport);
    assert_eq!(parse_error("export ::(*)"), ParseErrorKind::GlobExport);
    assert_eq!(
        parse_error("export foo"),
        ParseErrorKind::BadTokenInRegion { lexeme: Lexeme::Name("foo".to_string()), region: "exported line" }
    );
    assert_eq!(
        parse_error("const x = 1"),
        ParseErrorKind::Expected { expected: vec![Lexeme::Walrus], or_name: false, found: Lexeme::Name("=".to_string()) }
    );
    assert_eq!(parse_error("macro a b"), ParseErrorKind::NotFound("arrow"));
    assert_eq!(parse_error("import a b"), ParseErrorKind::ExpectedEOL);
    assert_eq!(parse_error("const x :="), ParseErrorKind::UnexpectedEOL(Lexeme::Walrus));
    assert_eq!(
        parse_error("module m [ ]"),
        ParseErrorKind::Expected { expected: vec![Lexeme::LP(PType::Par)], or_name: false, found: Lexeme::LP(PType::Sqr) }
    );
}

#[test]
fn lex_errors_surface_from_parse_file() {
    assert!(matches!(parse_file("const x := \"open"), Err(ProjectError::Lex(_))));
}

#[test]
fn entries_of_a_ready_made_text() {
    let lines = parse_entries("const a := 1\nconst b := 2", 5..9).unwrap();
    assert_eq!(lines.len(), 2);
    assert!(lines.iter().all(|l| matches!(l.kind, SourceLineKind::Member(_))));
    assert!(lines.iter().all(|l| l.range == (5..9)));
    match &lines[1].kind {
        SourceLineKind::Member(m) => match &m.kind {
            MemberKind::Constant(c) => {
                assert_eq!(c.name, "b");
                assert_eq!(c.value.range, 5..9);
            },
            other => panic!("{other:?}"),
        },
        other => panic!("{other:?}"),
    }
}

#[test]
fn entries_report_lex_errors_at_the_location() {
    let err = parse_entries("const a := \"open", 5..9).unwrap_err();
    assert_eq!(err.kind, LexErrorKind::NoStringEnd);
    assert_eq!(err.range, 5..9);
}

#[test]
fn text_the_lexer_does_not_accept() {
    assert!(try_parse_file("const x := 'a'").is_none());
    assert!(try_lex(vec![], "'").is_none());
    assert!(try_lex(vec![], "1_").is_some());
    assert!(try_lex(vec![], "0x_").is_none());
    assert!(try_parse_file("const x := 1").is_some());
}

struct Marker;

impl LineParsers for Marker {
    fn spec_answer(&self, _line: FragView) -> Option<Result<Seq<SourceLineKindView>, ParseErrorView>> {
        unreachable!("only read by the verifier")
    }

    fn answer(&self, line: Frag<'_>) -> Option<Result<Vec<SourceLineKind>, ParseError>> {
        match line.data.first().map(|e| &e.lexeme) {
            Some(Lexeme::Name(n)) if n == "mark" => Some(Ok(vec![SourceLineKind::Comment("marked".to_string())])),
            Some(Lexeme::Name(n)) if n == "const" && line.data.len() == 1 => {
                Some(Err(ParseError { kind: ParseErrorKind::ExpectedEOL, range: 0..1 }))
            },
            _ => None,
        }
    }
}

#[test]
fn line_parsers_are_tried_before_the_built_in_forms() {
    let tokens = lex(vec![], "mark anything at all").unwrap();
    let kinds = parse_line_with(Frag::from_slice(&tokens), &Marker).unwrap();
    assert!(matches!(&kinds[..], [SourceLineKind::Comment(c)] if c == "marked"));
    assert!(parse_line(Frag::from_slice(&tokens)).is_err());
    let tokens = lex(vec![], "const").unwrap();
    assert_eq!(parse_line_with(Frag::from_slice(&tokens), &Marker).unwrap_err().range, 0..1);
    let tokens = lex(vec![], "const x := 1").unwrap();
    assert!(matches!(parse_line_with(Frag::from_slice(&tokens), &Marker).unwrap()[0], SourceLineKind::Member(_)));
    let tokens = lex(vec![], "-- note\nmark").unwrap();
    assert!(matches!(&parse_line_with(Frag::from_slice(&tokens), &Marker).unwrap()[..], [SourceLineKind::Comment(c)] if c == "marked"));
}

#[test]
fn line_parsers_apply_inside_submodules() {
    let tokens = lex(vec![], "module m (\n  mark\n  const y := 2\n)").unwrap();
    let lines = parse_module_body_with(Frag::from_slice(&tokens), &Marker).unwrap();
    match &lines[0].kind {
        SourceLineKind::Member(m) => match &m.kind {
            MemberKind::Module(b) => {
                assert_eq!(b.body.len(), 2);
                assert!(matches!(&b.body[0].kind, SourceLineKind::Comment(c) if c == "marked"));
            },
            other => panic!("{other:?}"),
        },
        other => panic!("{other:?}"),
    }
    assert!(parse_module_body_with(Frag::from_slice(&tokens), &NoLineParsers).is_err());
}

#[test]
fn expressions_carry_the_location() {
    let e = parse_expr("f (g x)", 40..50).unwrap();
    assert_eq!(e.range, 40..50);
    match &e.value {
        Clause::S(PType::Par, v) => assert!(v.iter().all(|x| x.range == (40..50))),
        other => panic!("{other:?}"),
    }
    match parse_expr("\"open", 40..50) {
        Err(ProjectError::Lex(err)) => assert_eq!(err.range, 40..50),
        other => panic!("{other:?}"),
    }
    match parse_expr("a )", 40..50) {
        Err(ProjectError::Parse(err)) => assert_eq!(err.range, 40..50),
        other => panic!("{other:?}"),
    }
}
