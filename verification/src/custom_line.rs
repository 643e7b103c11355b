//! A helper for defining custom lines, and the lines of protocol and type
//! declarations built with it. See [custom_line]

use std::ops::Range;
use vstd::prelude::*;

use crate::errors::{
    err_at, error_at, expect, expect_name, spec_expect, spec_expect_name, ParseError,
    ParseErrorKind, ParseErrorKindView, ParseErrorView,
};
use crate::frag::{spec_pop, spec_range, spec_trim, Frag, FragView};
use crate::lexer::{EntryView, Lexeme, LexemeView};
use crate::multiname::spec_parse_multiname;
use crate::name::{seg_views, Sym, VName};
use crate::parsed::{
    kind_view, lemma_lines_push, lines_view, Expr, ExprView, SourceLine, SourceLineKind,
    SourceLineKindView, SourceLineView,
};
use crate::sourcefile::{
    parse_exprv, parse_line, parse_nsname, single_name, spec_exprv, spec_parse_line,
    spec_parse_nsname, spec_split_lines, spec_vec_to_single, split_lines, vec_to_single,
};
use crate::text::str_eq;

verus! {

/// What [custom_line] gives for a line and its keyword: `None` where the
/// line does not start with the keyword, optionally after `export`;
/// otherwise whether it was exported, the rest of the line and the range of
/// the whole line, or the refusal of an export the line type does not
/// allow.
pub open spec fn spec_custom_line(f: FragView, kw: Seq<char>, exportable: bool) -> Option<
    Result<(bool, FragView, (nat, nat)), ParseErrorView>,
> {
    let loc = spec_range(f);
    match spec_pop(f) {
        Err(_) => None,
        Ok((fst, t)) => match spec_expect_name(fst) {
            Err(_) => None,
            Ok(name) => if name == kw {
                Some(Ok((false, spec_trim(t), loc)))
            } else if name == "export"@ {
                match spec_pop(t) {
                    Err(_) => None,
                    Ok((snd, t2)) => if snd.lexeme == LexemeView::Name(kw) {
                        if exportable {
                            Some(Ok((true, spec_trim(t2), loc)))
                        } else {
                            Some(Err(err_at(ParseErrorKindView::Unexportable(snd.lexeme), snd)))
                        }
                    } else {
                        None
                    },
                }
            } else {
                None
            },
        },
    }
}

/// Parse a line identified by the specified leading keyword. Although not
/// required, plugins are encouraged to prefix their lines with a globally
/// unique keyword which makes or breaks their parsing, to avoid accidental
/// failure to recognize
pub fn custom_line<'a>(tail: Frag<'a>, keyword: &str, exportable: bool) -> (r: Option<
    Result<(bool, Frag<'a>, Range<usize>), ParseError>,
>)
    ensures
        match r {
            None => spec_custom_line(tail@, keyword@, exportable) is None,
            Some(Ok((exported, rest, loc))) => spec_custom_line(tail@, keyword@, exportable) == Some(
                Ok::<(bool, FragView, (nat, nat)), ParseErrorView>(
                    (exported, rest@, (loc.start as nat, loc.end as nat)),
                ),
            ),
            Some(Err(e)) => spec_custom_line(tail@, keyword@, exportable) == Some(
                Err::<(bool, FragView, (nat, nat)), ParseErrorView>(e@),
            ),
        },
{
    let line_loc = tail.range();
    let (fst, rest) = match tail.pop() {
        Ok(x) => x,
        Err(_) => {
            return None;
        },
    };
    let fst_name = match expect_name(fst) {
        Ok(n) => n,
        Err(_) => {
            return None;
        },
    };
    if str_eq(fst_name.as_str(), keyword) {
        return Some(Ok((false, rest.trim(), line_loc)));
    }
    if !str_eq(fst_name.as_str(), "export") {
        return None;
    }
    let (snd, rest2) = match rest.pop() {
        Ok(x) => x,
        Err(_) => {
            return None;
        },
    };
    let is_kw = match &snd.lexeme {
        Lexeme::Name(n) => str_eq(n.as_str(), keyword),
        _ => false,
    };
    if !is_kw {
        return None;
    }
    if !exportable {
        return Some(Err(error_at(ParseErrorKind::Unexportable(snd.lexeme.clone()), snd)));
    }
    Some(Ok((true, rest2.trim(), line_loc)))
}

/// An implementation of a protocol for a type, or of a type for a protocol
#[derive(Debug)]
pub struct Impl {
    /// The name of the counterpart's type data
    pub target: Sym,
    /// The implementation
    pub value: Expr,
}

/// The abstract value of an [Impl]
pub struct ImplView {
    pub target: Seq<Seq<char>>,
    pub value: ExprView,
}

impl View for Impl {
    type V = ImplView;

    open spec fn view(&self) -> ImplView {
        ImplView { target: self.target@, value: self.value@ }
    }
}

/// What follows `impl` on an implementation line: a name, `:=` and the
/// expressions of the value.
pub open spec fn impl_body(t: FragView) -> Result<(Seq<Seq<char>>, ExprView), ParseErrorView> {
    match spec_parse_nsname(t) {
        Err(e) => Err(e),
        Ok((name, t2)) => match spec_pop(spec_trim(t2)) {
            Err(e) => Err(e),
            Ok((walrus, t3)) => match spec_expect(LexemeView::Walrus, walrus) {
                Err(e) => Err(e),
                Ok(_) => match spec_exprv(t3, None) {
                    Err(e) => Err(e),
                    Ok((body, rest)) => if rest.data.len() > 0 {
                        Err(err_at(ParseErrorKindView::ExpectedEOL, rest.data[0]))
                    } else {
                        match spec_vec_to_single(t3.fallback, body) {
                            Err(e) => Err(e),
                            Ok(value) => Ok((name, value)),
                        }
                    },
                },
            },
        },
    }
}

/// What [parse_impl] gives for a line: `None` where it is not an `impl`
/// line.
pub open spec fn spec_parse_impl(f: FragView) -> Option<
    Result<(Seq<Seq<char>>, ExprView), ParseErrorView>,
> {
    match spec_custom_line(f, "impl"@, false) {
        None => None,
        Some(Err(e)) => Some(Err(e)),
        Some(Ok((_, t, _))) => Some(impl_body(t)),
    }
}

/// The inputs on which reading the name of an `impl` line does not fail
/// outright: the name is a single name, or something follows it.
pub open spec fn impl_readable(f: FragView) -> bool {
    spec_custom_line(f, "impl"@, false) matches Some(Ok((_, t, _))) ==> (spec_parse_multiname(
        t,
    ) matches Ok((names, tl)) ==> single_name(names) || tl.data.len() > 0)
}

/// Parse an `impl name := value` line of a protocol or type body
pub fn parse_impl(tail: Frag<'_>) -> (r: Option<Result<(VName, Expr), ParseError>>)
    requires
        impl_readable(tail@),
    ensures
        match r {
            None => spec_parse_impl(tail@) is None,
            Some(Ok((n, e))) => spec_parse_impl(tail@) == Some(
                Ok::<(Seq<Seq<char>>, ExprView), ParseErrorView>((n@, e@)),
            ),
            Some(Err(e)) => spec_parse_impl(tail@) == Some(
                Err::<(Seq<Seq<char>>, ExprView), ParseErrorView>(e@),
            ),
        },
{
    let rest = match custom_line(tail, "impl", false) {
        None => {
            return None;
        },
        Some(Err(e)) => {
            return Some(Err(e));
        },
        Some(Ok((_, rest, _))) => rest,
    };
    Some(impl_line_body(rest))
}

fn impl_line_body(rest: Frag<'_>) -> (r: Result<(VName, Expr), ParseError>)
    requires
        spec_parse_multiname(rest@) matches Ok((names, tl)) ==> single_name(names) || tl.data.len()
            > 0,
    ensures
        match r {
            Ok((n, e)) => impl_body(rest@) == Ok::<(Seq<Seq<char>>, ExprView), ParseErrorView>(
                (n@, e@),
            ),
            Err(e) => impl_body(rest@) == Err::<(Seq<Seq<char>>, ExprView), ParseErrorView>(e@),
        },
{
    let (name, after) = parse_nsname(rest)?;
    let (walrus, body_frag) = after.trim().pop()?;
    expect(Lexeme::Walrus, walrus)?;
    let (body, empty) = parse_exprv(body_frag, None)?;
    empty.expect_empty()?;
    let value = vec_to_single(body_frag.fallback, body)?;
    Ok((name, value))
}

/// The lines and implementations of a protocol or type body from line `k`
/// on: each implementation is keyed by its name followed by `typeid`, and
/// each other line keeps the range of the whole declaration.
pub open spec fn impls_from(
    lines: Seq<FragView>,
    k: int,
    typeid: Seq<char>,
    range: (nat, nat),
) -> Result<(Seq<SourceLineView>, Seq<ImplView>), ParseErrorView>
    decreases lines.len() - k,
{
    if k < 0 || k >= lines.len() {
        Ok((Seq::empty(), Seq::empty()))
    } else {
        match spec_parse_impl(lines[k]) {
            Some(Err(e)) => Err(e),
            Some(Ok((name, value))) => match impls_from(lines, k + 1, typeid, range) {
                Err(e) => Err(e),
                Ok((ls, is)) => Ok((ls, seq![ImplView { target: name.push(typeid), value }] + is)),
            },
            None => match spec_parse_line(lines[k]) {
                Err(e) => Err(e),
                Ok(kinds) => match impls_from(lines, k + 1, typeid, range) {
                    Err(e) => Err(e),
                    Ok((ls, is)) => Ok(
                        (
                            kinds.map_values(
                                |kd: SourceLineKindView|
                                    SourceLineView { kind: kd, start: range.0, end: range.1 },
                            ) + ls,
                            is,
                        ),
                    ),
                },
            },
        }
    }
}

/// Separate the `impl` lines of a protocol or type body from its other lines
pub fn extract_impls(tail: Frag<'_>, typeid_name: &str, range: Range<usize>) -> (r: Result<
    (Vec<SourceLine>, Vec<Impl>),
    ParseError,
>)
    requires
        forall|k: int|
            0 <= k < spec_split_lines(tail@).len() ==> #[trigger] impl_readable(
                spec_split_lines(tail@)[k],
            ),
    ensures
        match r {
            Ok((ls, is)) => impls_from(
                spec_split_lines(tail@),
                0,
                typeid_name@,
                (range.start as nat, range.end as nat),
            ) == Ok::<(Seq<SourceLineView>, Seq<ImplView>), ParseErrorView>(
                (lines_view(ls@), is@.map_values(|i: Impl| i@)),
            ),
            Err(e) => impls_from(
                spec_split_lines(tail@),
                0,
                typeid_name@,
                (range.start as nat, range.end as nat),
            ) == Err::<(Seq<SourceLineView>, Seq<ImplView>), ParseErrorView>(e@),
        },
{
    let lines = split_lines(tail);
    let ghost ls = lines@.map_values(|f: Frag| f@);
    let ghost rg = (range.start as nat, range.end as nat);
    let ghost goal = impls_from(ls, 0, typeid_name@, rg);
    let mut out: Vec<SourceLine> = Vec::new();
    let mut impls: Vec<Impl> = Vec::new();
    let mut k: usize = 0;
    assert(lines_view(out@) =~= Seq::<SourceLineView>::empty());
    assert(impls@.map_values(|i: Impl| i@) =~= Seq::<ImplView>::empty());
    proof {
        match impls_from(ls, 0, typeid_name@, rg) {
            Ok((a, b)) => {
                assert(Seq::<SourceLineView>::empty() + a =~= a);
                assert(Seq::<ImplView>::empty() + b =~= b);
            },
            Err(_) => {},
        }
    }
    while k < lines.len()
        invariant
            k <= lines@.len(),
            ls == lines@.map_values(|f: Frag| f@),
            ls == spec_split_lines(tail@),
            rg == (range.start as nat, range.end as nat),
            goal == impls_from(ls, 0, typeid_name@, rg),
            forall|j: int| 0 <= j < ls.len() ==> #[trigger] impl_readable(ls[j]),
            goal == match impls_from(ls, k as int, typeid_name@, rg) {
                Ok((a, b)) => Ok((lines_view(out@) + a, impls@.map_values(|i: Impl| i@) + b)),
                Err(e) => Err::<(Seq<SourceLineView>, Seq<ImplView>), ParseErrorView>(e),
            },
        decreases lines@.len() - k,
    {
        let l = lines[k];
        assert(l@ == ls[k as int]);
        assert(impl_readable(ls[k as int]));
        match parse_impl(l) {
            Some(Err(e)) => {
                return Err(e);
            },
            Some(Ok((name, value))) => {
                let mut segs = name.into_vec();
                let ghost before_segs = seg_views(segs@);
                segs.push(typeid_name.to_owned());
                assert(seg_views(segs@) =~= before_segs.push(typeid_name@));
                let target = Sym::new(segs).unwrap();
                let item = Impl { target, value };
                let ghost before = impls@.map_values(|i: Impl| i@);
                impls.push(item);
                proof {
                    assert(impls@.map_values(|i: Impl| i@) =~= before.push(item@));
                    match impls_from(ls, k + 1, typeid_name@, rg) {
                        Ok((a, b)) => {
                            assert(before.push(item@) + b =~= before + (seq![item@] + b));
                        },
                        Err(_) => {},
                    }
                }
            },
            None => {
                let kinds = match parse_line(l) {
                    Ok(v) => v,
                    Err(e) => {
                        return Err(e);
                    },
                };
                let ghost kv = kinds@.map_values(|x: SourceLineKind| x@);
                let ghost mk = |kd: SourceLineKindView|
                    SourceLineView { kind: kd, start: rg.0, end: rg.1 };
                let ghost base = lines_view(out@);
                let mut rest_kinds = kinds;
                let ghost mut j: int = 0;
                while rest_kinds.len() > 0
                    invariant
                        0 <= j <= kv.len(),
                        rest_kinds@.map_values(|x: SourceLineKind| x@) == kv.skip(j),
                        lines_view(out@) == base + kv.take(j).map_values(mk),
                        rg == (range.start as nat, range.end as nat),
                        forall|kd: SourceLineKindView|
                            #[trigger] mk(kd) == (SourceLineView { kind: kd, start: rg.0, end: rg.1 }),
                    decreases rest_kinds@.len(),
                {
                    let ghost old_rest = rest_kinds@;
                    let kind = rest_kinds.remove(0);
                    proof {
                        assert(old_rest.map_values(|x: SourceLineKind| x@).len() == old_rest.len());
                        assert(old_rest.map_values(|x: SourceLineKind| x@)[0] == old_rest[0]@);
                        assert(kv.skip(j)[0] == kv[j]);
                        let rv = rest_kinds@.map_values(|x: SourceLineKind| x@);
                        assert forall|i: int| 0 <= i < rv.len() implies #[trigger] rv[i] == kv.skip(
                            j + 1,
                        )[i] by {
                            assert(rest_kinds@[i] == old_rest[i + 1]);
                            assert(old_rest.map_values(|x: SourceLineKind| x@)[i + 1] == old_rest[i
                                + 1]@);
                            assert(kv.skip(j)[i + 1] == kv[j + i + 1]);
                        }
                        assert(rv =~= kv.skip(j + 1));
                    }
                    let line = SourceLine { range: Range { start: range.start, end: range.end }, kind };
                    let ghost prev = out@;
                    out.push(line);
                    proof {
                        lemma_lines_push(prev, line);
                        assert(mk(kv[j]) == SourceLineView {
                            kind: kind_view(line.kind),
                            start: line.range.start as nat,
                            end: line.range.end as nat,
                        });
                        assert(kv.take(j + 1).map_values(mk) =~= kv.take(j).map_values(mk).push(
                            mk(kv[j]),
                        ));
                        assert((base + kv.take(j).map_values(mk)).push(mk(kv[j])) =~= base + kv.take(
                            j,
                        ).map_values(mk).push(mk(kv[j])));
                        j = j + 1;
                    }
                }
                proof {
                    assert(kv.take(j) =~= kv);
                    let mapped = kv.map_values(
                        |kd: SourceLineKindView| SourceLineView { kind: kd, start: rg.0, end: rg.1 },
                    );
                    assert(kv.map_values(mk) =~= mapped);
                    match impls_from(ls, k + 1, typeid_name@, rg) {
                        Ok((a, b)) => {
                            assert(base + mapped + a =~= base + (mapped + a));
                        },
                        Err(_) => {},
                    }
                }
            },
        }
        k = k + 1;
    }
    proof {
        assert(lines_view(out@) + Seq::<SourceLineView>::empty() =~= lines_view(out@));
        assert(impls@.map_values(|i: Impl| i@) + Seq::<ImplView>::empty() =~= impls@.map_values(
            |i: Impl| i@,
        ));
    }
    Ok((out, impls))
}

} // verus!
