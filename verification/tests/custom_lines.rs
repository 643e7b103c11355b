use orchidlang::custom_line::{custom_line, extract_impls, parse_impl};
use orchidlang::errors::ParseErrorKind;
use orchidlang::frag::Frag;
use orchidlang::lex::lex;
use orchidlang::lexer::{Entry, Lexeme};
use orchidlang::parsed::{Clause, SourceLineKind};
use orchidlang::name::{NameLike, Sym};
use orchidlang::protocol::{
    parse_type_line, parsers, resolve, unwrap, wrap, Protocol, Tag, TypeLine, PROTOCOL_ID_KEY, TAG_ID_KEY,
};

fn tokens(src: &str) -> Vec<Entry> {
    lex(vec![], src).unwrap()
}

fn names(f: &Frag) -> Vec<String> {
    f.data
        .iter()
        .map(|e| match &e.lexeme {
            Lexeme::Name(n) => n.clone(),
            other => format!("{other:?}"),
        })
        .collect()
}

#[test]
fn custom_line_with_its_keyword() {
    let t = tokens("type foo bar");
    let (exported, rest, range) = custom_line(Frag::from_slice(&t), "type", true).unwrap().unwrap();
    assert!(!exported);
    assert_eq!(names(&rest), vec!["foo".to_string(), "bar".to_string()]);
    assert_eq!(range, 0..12);
}

#[test]
fn exported_custom_line() {
    let t = tokens("export type foo");
    let (exported, rest, range) = custom_line(Frag::from_slice(&t), "type", true).unwrap().unwrap();
    assert!(exported);
    assert_eq!(names(&rest), vec!["foo".to_string()]);
    assert_eq!(range, 0..15);
}

#[test]
fn unexportable_custom_line() {
    let t = tokens("export impl foo");
    let err = match custom_line(Frag::from_slice(&t), "impl", false) {
        Some(Err(e)) => e,
        _ => panic!("expected a refusal"),
    };
    assert_eq!(err.kind, ParseErrorKind::Unexportable(Lexeme::Name("impl".to_string())));
    assert_eq!(err.range, 7..11);
}

#[test]
fn other_lines_are_not_custom_lines() {
    let t = tokens("const x := 1");
    assert!(custom_line(Frag::from_slice(&t), "type", true).is_none());
    let t = tokens("export const x := 1");
    assert!(custom_line(Frag::from_slice(&t), "type", true).is_none());
    let t = tokens("1 type");
    assert!(custom_line(Frag::from_slice(&t), "type", true).is_none());
}

#[test]
fn impl_line() {
    let t = tokens("impl foo::bar := baz");
    let (name, value) = parse_impl(Frag::from_slice(&t)).unwrap().unwrap();
    assert_eq!(name.iter(), vec!["foo".to_string(), "bar".to_string()]);
    match &value.value {
        Clause::Name(s) => assert_eq!(s.iter(), vec!["baz".to_string()]),
        other => panic!("{other:?}"),
    }
    assert_eq!(value.range, 17..20);
}

#[test]
fn impl_line_errors() {
    let t = tokens("impl foo = baz");
    let err = parse_impl(Frag::from_slice(&t)).unwrap().unwrap_err();
    assert!(matches!(err.kind, ParseErrorKind::Expected { .. }));
    let t = tokens("export impl foo := baz");
    let err = parse_impl(Frag::from_slice(&t)).unwrap().unwrap_err();
    assert_eq!(err.kind, ParseErrorKind::Unexportable(Lexeme::Name("impl".to_string())));
    let t = tokens("const foo := baz");
    assert!(parse_impl(Frag::from_slice(&t)).is_none());
}

#[test]
fn impls_are_separated_from_other_lines() {
    let t = tokens("impl a := 1\nconst b := 2\nimpl c::d := 3");
    let (lines, impls) = extract_impls(Frag::from_slice(&t), "__type_id__", 5..40).unwrap();
    assert_eq!(lines.len(), 1);
    assert_eq!(lines[0].range, 5..40);
    assert!(matches!(lines[0].kind, SourceLineKind::Member(_)));
    assert_eq!(impls.len(), 2);
    assert_eq!(impls[0].target.iter(), vec!["a".to_string(), "__type_id__".to_string()]);
    assert_eq!(
        impls[1].target.iter(),
        vec!["c".to_string(), "d".to_string(), "__type_id__".to_string()]
    );
}

#[test]
fn a_bad_line_fails_the_whole_body() {
    let t = tokens("impl a := 1\nfoo bar");
    assert!(extract_impls(Frag::from_slice(&t), "x", 0..1).is_err());
}

#[test]
fn find_splits_at_the_first_top_level_match() {
    let t = tokens("a (b . c) . d . e");
    let dot = Lexeme::Name(".".to_string());
    let (left, right) = match Frag::from_slice(&t).find("a dot", |l| *l == dot) {
        Ok(sides) => sides,
        Err(e) => panic!("{e:?}"),
    };
    assert_eq!(left.data.len(), 6);
    assert_eq!(names(&right), vec!["d".to_string(), ".".to_string(), "e".to_string()]);
    assert_eq!(right.fallback.lexeme, dot);
}

#[test]
fn find_reports_what_was_missing() {
    let t = tokens("a (b . c)");
    let dot = Lexeme::Name(".".to_string());
    let err = match Frag::from_slice(&t).find("a dot", |l| *l == dot) {
        Ok(_) => panic!("no top-level dot here"),
        Err(e) => e,
    };
    assert_eq!(err.kind, ParseErrorKind::NotFound("a dot"));
    assert_eq!(err.range, 0..9);
}

#[test]
fn protocol_declaration() {
    let t = tokens("export protocol show (\n  impl number := n\n  const x := 1\n)");
    let d = parse_type_line(Frag::from_slice(&t), TypeLine::Protocol).unwrap().unwrap();
    assert!(d.exported);
    assert_eq!(d.name.as_deref(), Some("show"));
    assert_eq!(d.range, 0..58);
    assert_eq!(d.lines.len(), 1);
    assert_eq!(d.lines[0].range, 0..58);
    assert_eq!(d.impls.len(), 1);
    assert_eq!(d.impls[0].target.iter(), vec!["number".to_string(), "__type_id__".to_string()]);
}

#[test]
fn type_declaration_keys_impls_by_protocol() {
    let t = tokens("type pair ( impl show := s )");
    let d = parse_type_line(Frag::from_slice(&t), TypeLine::Type).unwrap().unwrap();
    assert!(!d.exported);
    assert_eq!(d.name.as_deref(), Some("pair"));
    assert!(d.lines.is_empty());
    assert_eq!(d.impls[0].target.iter(), vec!["show".to_string(), "__protocol_id__".to_string()]);
}

#[test]
fn anonymous_declarations() {
    let t = tokens("as_type ( const a := 1 )");
    let d = parse_type_line(Frag::from_slice(&t), TypeLine::AsType).unwrap().unwrap();
    assert_eq!(d.name, None);
    assert_eq!(d.lines.len(), 1);
    let t = tokens("export as_protocol ( )");
    let err = match parse_type_line(Frag::from_slice(&t), TypeLine::AsProtocol) {
        Some(Err(e)) => e,
        _ => panic!("the anonymous form cannot be exported"),
    };
    assert_eq!(err.kind, ParseErrorKind::Unexportable(Lexeme::Name("as_protocol".to_string())));
}

#[test]
fn type_line_errors() {
    let t = tokens("type 1 ( )");
    let err = match parse_type_line(Frag::from_slice(&t), TypeLine::Type) {
        Some(Err(e)) => e,
        _ => panic!("a name is needed"),
    };
    assert!(matches!(err.kind, ParseErrorKind::ExpectedName(_)));
    let t = tokens("type t [ ]");
    assert!(matches!(parse_type_line(Frag::from_slice(&t), TypeLine::Type), Some(Err(_))));
    let t = tokens("type t ( foo bar )");
    assert!(matches!(parse_type_line(Frag::from_slice(&t), TypeLine::Type), Some(Err(_))));
    let t = tokens("protocol t ( )");
    assert!(parse_type_line(Frag::from_slice(&t), TypeLine::Type).is_none());
}

#[test]
fn the_line_parsers_and_their_keys() {
    let all = parsers();
    assert_eq!(all, [TypeLine::Protocol, TypeLine::Type, TypeLine::AsType, TypeLine::AsProtocol]);
    let keywords: Vec<&str> = all.iter().map(|k| k.keyword()).collect();
    assert_eq!(keywords, vec!["protocol", "type", "as_type", "as_protocol"]);
    assert_eq!(TypeLine::AsProtocol.counterpart_id(), TAG_ID_KEY);
    assert_eq!(TypeLine::AsType.counterpart_id(), PROTOCOL_ID_KEY);
    assert!(TypeLine::Protocol.prelude().contains("const __protocol_id__ := std::reflect::modname 1"));
    assert!(TypeLine::Type.prelude().contains("const wrap := std::protocol::wrap __type_data__"));
}

fn sym(s: &str) -> Sym {
    Sym::parse(s).unwrap()
}

#[test]
fn names_are_shown_with_double_colons() {
    assert_eq!(sym("std::string::conversion").show(), "std::string::conversion");
    assert_eq!(sym("main").show(), "main");
}

#[test]
fn resolve_looks_in_the_protocol_first() {
    let show = Protocol::new(sym("std::show"), vec![(sym("app::point"), "from protocol")]);
    let point = Tag::new(sym("app::point"), vec![(sym("std::show"), "from type")]);
    assert_eq!(resolve(&show, &point).ok(), Some(&"from protocol"));
    let bare = Protocol::new(sym("std::show"), vec![]);
    assert_eq!(resolve(&bare, &point).ok(), Some(&"from type"));
}

#[test]
fn the_last_implementation_counts() {
    let show = Protocol::new(sym("p"), vec![(sym("t"), 1u8), (sym("u"), 2), (sym("t"), 3)]);
    let t = Tag::new(sym("t"), vec![]);
    assert_eq!(resolve(&show, &t).ok(), Some(&3));
}

#[test]
fn resolve_reports_a_missing_implementation() {
    let show: Protocol<u8> = Protocol::new(sym("std::show"), vec![]);
    let point: Tag<u8> = Tag::new(sym("app::point"), vec![]);
    let e = resolve(&show, &point).unwrap_err();
    assert_eq!(e.describe(), "Error while dispatching protocol: Tag(app::point) doesn't implement Protocol(std::show)");
}

#[test]
fn wrap_and_unwrap() {
    let point: Tag<u8> = Tag::new(sym("app::point"), vec![]);
    let other: Tag<u8> = Tag::new(sym("app::line"), vec![]);
    let tagged = wrap(Tag::new(sym("app::point"), vec![]), 7u8);
    assert!(tagged.tag.strict_eq(&point));
    assert_eq!(unwrap(&point, &tagged).ok(), Some(&7));
    let e = unwrap(&other, &tagged).unwrap_err();
    assert_eq!(
        e.describe(),
        "Error while unwrapping type-tagged value: expected Tag(app::line) but got Tag(app::point)"
    );
}
