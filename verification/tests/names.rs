use orchidlang::name::{EmptyNameError, NameLike, PathSlice, Sym, VName, VPath};

fn segs(v: &[&str]) -> Vec<String> {
    v.iter().map(|s| s.to_string()).collect()
}

#[test]
fn path_parsing() {
    assert_eq!(VPath::parse("a::b::c").0, segs(&["a", "b", "c"]));
    assert_eq!(VPath::parse("").0, Vec::<String>::new());
    assert_eq!(VPath::parse("a::").0, segs(&["a", ""]));
    assert_eq!(VPath::parse("a:b").0, segs(&["a:b"]));
}

#[test]
fn name_parsing() {
    assert_eq!(VName::parse("std::string").unwrap().into_vec(), segs(&["std", "string"]));
    assert_eq!(VName::parse(""), Err(EmptyNameError));
    assert_eq!(VName::literal("x").into_vec(), segs(&["x"]));
    assert_eq!(Sym::parse("a::b").unwrap().iter(), segs(&["a", "b"]));
    assert!(Sym::parse("").is_err());
}

#[test]
fn path_editing() {
    let p = VPath::new(segs(&["b"])).prefix(segs(&["a"])).suffix(segs(&["c"]));
    assert_eq!(p.0, segs(&["a", "b", "c"]));
    assert_eq!(p.str_iter(), vec!["a", "b", "c"]);
    let n = VPath::new(segs(&["a"])).as_prefix_of("z".to_string());
    assert_eq!(n.into_vec(), segs(&["a", "z"]));
    let n = VPath::new(segs(&["a"])).as_suffix_of("z".to_string());
    assert_eq!(n.into_vec(), segs(&["z", "a"]));
    assert!(VPath::new(vec![]).into_name().is_err());
    assert_eq!(VPath::new(segs(&["q"])).into_name().unwrap().into_vec(), segs(&["q"]));
}

#[test]
fn name_accessors() {
    let n = VName::parse("a::b::c").unwrap();
    let (first, rest) = n.split_first();
    assert_eq!(first, "a");
    assert_eq!(rest.to_vec(), segs(&["b", "c"]));
    let (last, init) = n.split_last();
    assert_eq!(last, "c");
    assert_eq!(init.to_vec(), segs(&["a", "b"]));
    assert_eq!(n.as_root(), None);
    assert_eq!(VName::literal("x").as_root(), Some("x".to_string()));
    assert_eq!(n.vec(), &segs(&["a", "b", "c"]));
    assert_eq!(n.iter(), segs(&["a", "b", "c"]));
    let n2 = n.clone().prefix(segs(&["r"])).suffix(segs(&["s"]));
    assert_eq!(n2.into_vec(), segs(&["r", "a", "b", "c", "s"]));
}

#[test]
fn coprefix_is_the_longest_common_prefix() {
    let n = VName::parse("a::b::c").unwrap();
    assert_eq!(n.coprefix(&segs(&["a", "b", "x"])).to_vec(), segs(&["a", "b"]));
    assert_eq!(n.coprefix(&segs(&["x"])).to_vec(), Vec::<String>::new());
    assert_eq!(n.coprefix(&segs(&["a", "b", "c", "d"])).to_vec(), segs(&["a", "b", "c"]));
}

#[test]
fn symbol_conversions() {
    let s = Sym::literal("std::conv::to_string");
    let (last, init) = s.split_last();
    assert_eq!(last, "to_string");
    assert_eq!(init.to_vpath().0, segs(&["std", "conv"]));
    let (first, tail) = s.split_first();
    assert_eq!(first, "std");
    assert_eq!(tail.str_iter(), vec!["conv", "to_string"]);
    assert_eq!(s.to_vname().to_sym().iter(), s.iter());
    let slice: PathSlice = s.as_path_slice();
    assert_eq!(slice.to_vpath().0, segs(&["std", "conv", "to_string"]));
    let v = VName::literal("a::b");
    assert_eq!(v.as_path_slice().str_iter(), vec!["a", "b"]);
}

#[test]
fn name_like_views() {
    let s = Sym::literal("std::string::convert");
    assert_eq!(NameLike::str_iter(&s), vec!["std", "string", "convert"]);
    assert_eq!(s.to_strv(), segs(&["std", "string", "convert"]));
    assert_eq!(s.as_src_path(), "std/string/convert.orc");
    assert_eq!(NameLike::len(&s), 3);
    let v = VName::literal("main");
    assert_eq!(v.as_src_path(), "main.orc");
    assert_eq!(NameLike::len(&v), 1);
}

#[test]
fn printed_paths_read_back() {
    let p = segs(&["a", "bc", "d"]);
    let text = p.join("::");
    assert_eq!(VPath::parse(&text).0, p);
    assert_eq!(VPath::parse("x::y").0.join("::"), "x::y");
}

#[test]
fn paths_print_and_read_back() {
    let p = VPath::parse("std::string::conversion");
    assert_eq!(p.show(), "std::string::conversion");
    assert_eq!(VPath::parse(&p.show()).0, p.0);
    let empty = VPath::parse("");
    assert_eq!(empty.show(), "");
    let one_empty = VPath::new(vec![String::new()]);
    assert_eq!(one_empty.show(), "");
    assert!(VPath::parse(&one_empty.show()).0.is_empty());
}
