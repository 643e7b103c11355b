//! Entry points that lex and parse whole texts.

use std::ops::Range;
use vstd::prelude::*;

use crate::errors::{ParseError, ParseErrorView};
use crate::frag::{Frag, FragView};
use crate::lex::{
    entry_views, lex, lex_from, lex_from_with, try_lex, try_lex_with, LexError, LexerPlugins,
    NoLexerPlugins,
};
use crate::lexer::{Entry, EntryView};
use crate::parsed::{kind_view, lemma_lines_push, lines_view, Expr, ExprView, SourceLine, SourceLineKind, SourceLineKindView, SourceLineView};
use crate::sourcefile::{
    parse_exprv, parse_line, parse_module_body, parse_module_body_with, spec_module_body_with,
    parse_line_with, spec_parse_line_with, LineParsers, NoLineParsers, spec_exprv, spec_module_body, spec_parse_line,
    spec_split_lines, spec_vec_to_single, split_lines, vec_to_single,
};

verus! {

/// An error of either stage of reading a text.
#[derive(Debug, PartialEq, Eq)]
pub enum ProjectError {
    /// The text could not be split into tokens
    Lex(LexError),
    /// The tokens do not form valid syntax
    Parse(ParseError),
}

/// The abstract value of a [ProjectError]
pub enum ProjectErrorView {
    Lex(LexError),
    Parse(ParseErrorView),
}

impl View for ProjectError {
    type V = ProjectErrorView;

    open spec fn view(&self) -> ProjectErrorView {
        match self {
            ProjectError::Lex(e) => ProjectErrorView::Lex(*e),
            ProjectError::Parse(e) => ProjectErrorView::Parse(e@),
        }
    }
}

/// The tokens of a whole text with the lexer plugins `l`, `None` where the
/// lexer does not accept it.
pub open spec fn lexed_with<L: LexerPlugins>(l: L, s: Seq<char>) -> Option<
    Result<Seq<EntryView>, LexError>,
> {
    lex_from_with(l, s, 0, Seq::empty())
}

/// The tokens of a whole text, `None` where the lexer does not accept it.
pub open spec fn lexed(s: Seq<char>) -> Option<Result<Seq<EntryView>, LexError>> {
    lex_from(s, 0, Seq::empty())
}

/// A non-empty token list as a fragment whose fallback is its first token.
pub open spec fn whole(t: Seq<EntryView>) -> FragView {
    FragView { fallback: t[0], data: t }
}

/// What [try_parse_file_with] gives for a text the lexer accepts, with the
/// lexer plugins `l` and the line parsers `p`.
pub open spec fn spec_parse_file_with<L: LexerPlugins, P: LineParsers>(
    l: L,
    p: P,
    s: Seq<char>,
) -> Result<Seq<SourceLineView>, ProjectErrorView>
    recommends
        lexed_with(l, s) is Some,
{
    match lexed_with(l, s).unwrap() {
        Err(e) => Err(ProjectErrorView::Lex(e)),
        Ok(t) => if t.len() == 0 {
            Ok(Seq::empty())
        } else {
            match spec_module_body_with(p, whole(t)) {
                Err(e) => Err(ProjectErrorView::Parse(e)),
                Ok(v) => Ok(v),
            }
        },
    }
}

/// What [parse_file] gives for a text the lexer accepts.
pub open spec fn spec_parse_file(s: Seq<char>) -> Result<Seq<SourceLineView>, ProjectErrorView>
    recommends
        lexed(s) is Some,
{
    spec_parse_file_with(NoLexerPlugins, NoLineParsers, s)
}

fn lex_text_with<L: LexerPlugins>(text: &str, l: &L) -> (r: Result<Vec<Entry>, LexError>)
    requires
        lexed_with(*l, text@) is Some,
    ensures
        match r {
            Ok(t) => lexed_with(*l, text@) == Some(Ok::<Seq<EntryView>, LexError>(entry_views(t@))),
            Err(e) => lexed_with(*l, text@) == Some(Err::<Seq<EntryView>, LexError>(e)),
        },
{
    let empty: Vec<Entry> = Vec::new();
    assert(entry_views(empty@) =~= Seq::<EntryView>::empty());
    try_lex_with(empty, text, l).unwrap()
}

fn whole_frag<'a>(tokens: &'a Vec<Entry>) -> (r: Frag<'a>)
    requires
        tokens@.len() > 0,
    ensures
        r@ == whole(entry_views(tokens@)),
{
    let f = Frag::from_slice(tokens.as_slice());
    assert(f@.data =~= entry_views(tokens@));
    f
}

/// Parse a file with the lexer plugins `l`, tried at every token before the
/// built-in rules, and the line parsers `p`, tried on every line before the
/// built-in forms; `None` where the lexer does not accept the text.
pub fn try_parse_file_with<L: LexerPlugins, P: LineParsers>(source: &str, l: &L, p: &P) -> (r:
    Option<Result<Vec<SourceLine>, ProjectError>>)
    ensures
        match r {
            None => lexed_with(*l, source@) is None,
            Some(Ok(v)) => lexed_with(*l, source@) is Some && spec_parse_file_with(*l, *p, source@)
                == Ok::<Seq<SourceLineView>, ProjectErrorView>(lines_view(v@)),
            Some(Err(e)) => lexed_with(*l, source@) is Some && spec_parse_file_with(*l, *p, source@)
                == Err::<Seq<SourceLineView>, ProjectErrorView>(e@),
        },
{
    let empty: Vec<Entry> = Vec::new();
    assert(entry_views(empty@) =~= Seq::<EntryView>::empty());
    let tokens = match try_lex_with(empty, source, l) {
        None => {
            return None;
        },
        Some(Ok(t)) => t,
        Some(Err(e)) => {
            return Some(Err(ProjectError::Lex(e)));
        },
    };
    if tokens.len() == 0 {
        assert(lines_view(Seq::<SourceLine>::empty()) =~= Seq::<SourceLineView>::empty());
        return Some(Ok(Vec::new()));
    }
    let f = whole_frag(&tokens);
    match parse_module_body_with(f, p) {
        Ok(v) => Some(Ok(v)),
        Err(e) => Some(Err(ProjectError::Parse(e))),
    }
}

/// Parse a file; `None` where the lexer does not accept the text.
pub fn try_parse_file(source: &str) -> (r: Option<Result<Vec<SourceLine>, ProjectError>>)
    ensures
        match r {
            None => lexed(source@) is None,
            Some(Ok(v)) => lexed(source@) is Some && spec_parse_file(source@) == Ok::<
                Seq<SourceLineView>,
                ProjectErrorView,
            >(lines_view(v@)),
            Some(Err(e)) => lexed(source@) is Some && spec_parse_file(source@) == Err::<
                Seq<SourceLineView>,
                ProjectErrorView,
            >(e@),
        },
{
    try_parse_file_with(source, &NoLexerPlugins, &NoLineParsers)
}

/// Parse a file
pub fn parse_file(source: &str) -> (r: Result<Vec<SourceLine>, ProjectError>)
    requires
        lexed(source@) is Some,
    ensures
        match r {
            Ok(v) => spec_parse_file(source@) == Ok::<Seq<SourceLineView>, ProjectErrorView>(
                lines_view(v@),
            ),
            Err(e) => spec_parse_file(source@) == Err::<Seq<SourceLineView>, ProjectErrorView>(e@),
        },
{
    try_parse_file(source).unwrap()
}

/// What [parse_expr_with] gives for a text whose tokens are not empty, with
/// the lexer plugins `l`: its expressions, wrapped in parentheses if there
/// are several. Every token, and so every expression and every error,
/// carries the range `start..end` in place of a position in the text.
pub open spec fn spec_parse_expr_with<L: LexerPlugins>(
    l: L,
    s: Seq<char>,
    start: nat,
    end: nat,
) -> Result<ExprView, ProjectErrorView>
    recommends
        lexed_with(l, s) is Some,
{
    match lexed_with(l, s).unwrap() {
        Err(e) => Err(
            ProjectErrorView::Lex(
                LexError { kind: e.kind, range: Range { start: start as usize, end: end as usize } },
            ),
        ),
        Ok(t0) => {
            let t = relocate(t0, start, end);
            match spec_exprv(whole(t), None) {
                Err(e) => Err(ProjectErrorView::Parse(e)),
                Ok((items, _)) => match spec_vec_to_single(t[0], items) {
                    Err(e) => Err(ProjectErrorView::Parse(e)),
                    Ok(x) => Ok(x),
                },
            }
        },
    }
}

/// What [parse_expr] gives: [spec_parse_expr_with] without lexer plugins.
pub open spec fn spec_parse_expr(s: Seq<char>, start: nat, end: nat) -> Result<
    ExprView,
    ProjectErrorView,
>
    recommends
        lexed(s) is Some,
{
    spec_parse_expr_with(NoLexerPlugins, s, start, end)
}

/// Parse a ready-made expression, trying the lexer plugins `l` at every
/// token before the built-in rules. Every token, and so every expression
/// and every error, carries `location` in place of a position in `text`.
pub fn parse_expr_with<L: LexerPlugins>(text: &str, location: Range<usize>, l: &L) -> (r: Result<
    Expr,
    ProjectError,
>)
    requires
        lexed_with(*l, text@) is Some,
        lexed_with(*l, text@) matches Some(Ok(t)) ==> t.len() > 0,
    ensures
        match r {
            Ok(x) => spec_parse_expr_with(*l, text@, location.start as nat, location.end as nat)
                == Ok::<ExprView, ProjectErrorView>(x@),
            Err(e) => spec_parse_expr_with(*l, text@, location.start as nat, location.end as nat)
                == Err::<ExprView, ProjectErrorView>(e@),
        },
{
    let tokens = match lex_text_with(text, l) {
        Ok(t) => t,
        Err(e) => {
            return Err(ProjectError::Lex(LexError { kind: e.kind, range: location }));
        },
    };
    let moved = relocate_exec(tokens, &location);
    let f = whole_frag(&moved);
    let items = match parse_exprv(f, None) {
        Ok((items, _)) => items,
        Err(e) => {
            return Err(ProjectError::Parse(e));
        },
    };
    match vec_to_single(&moved[0], items) {
        Ok(x) => Ok(x),
        Err(e) => Err(ProjectError::Parse(e)),
    }
}

/// Parse a ready-made expression. Every token, and so every expression and
/// every error, carries `location` in place of a position in `text`.
pub fn parse_expr(text: &str, location: Range<usize>) -> (r: Result<Expr, ProjectError>)
    requires
        lexed(text@) is Some,
        lexed(text@) matches Some(Ok(t)) ==> t.len() > 0,
    ensures
        match r {
            Ok(x) => spec_parse_expr(text@, location.start as nat, location.end as nat) == Ok::<
                ExprView,
                ProjectErrorView,
            >(x@),
            Err(e) => spec_parse_expr(text@, location.start as nat, location.end as nat) == Err::<
                ExprView,
                ProjectErrorView,
            >(e@),
        },
{
    parse_expr_with(text, location, &NoLexerPlugins)
}

/// The kinds of the lines `lines[k..]`, in order; meaningful where each of
/// them parses.
pub open spec fn entries_from_with<P: LineParsers>(p: P, lines: Seq<FragView>, k: int) -> Seq<SourceLineKindView>
    decreases lines.len() - k,
{
    if k < 0 || k >= lines.len() {
        Seq::empty()
    } else {
        match spec_parse_line_with(p, lines[k]) {
            Ok(kinds) => kinds + entries_from_with(p, lines, k + 1),
            Err(_) => entries_from_with(p, lines, k + 1),
        }
    }
}

/// Whether every line of the fragment parses.
pub open spec fn all_lines_parse_with<P: LineParsers>(p: P, f: FragView) -> bool {
    forall|k: int|
        0 <= k < spec_split_lines(f).len() ==> #[trigger] spec_parse_line_with(p, spec_split_lines(f)[k]) is Ok
}

/// The tokens with every range replaced by `start..end`.
pub open spec fn relocate(t: Seq<EntryView>, start: nat, end: nat) -> Seq<EntryView> {
    t.map_values(|e: EntryView| EntryView { lexeme: e.lexeme, start, end })
}

/// Line kinds wrapped as lines with the range `start..end`.
pub open spec fn wrap_kinds(kinds: Seq<SourceLineKindView>, start: nat, end: nat) -> Seq<
    SourceLineView,
> {
    kinds.map_values(|k: SourceLineKindView| SourceLineView { kind: k, start, end })
}

/// Give every token the range `location`.
fn relocate_exec(tokens: Vec<Entry>, location: &Range<usize>) -> (r: Vec<Entry>)
    ensures
        entry_views(r@) == relocate(
            entry_views(tokens@),
            location.start as nat,
            location.end as nat,
        ),
{
    let ghost goal = relocate(entry_views(tokens@), location.start as nat, location.end as nat);
    let ghost n = tokens@.len();
    let mut src = tokens;
    let mut out: Vec<Entry> = Vec::new();
    let ghost mut i: int = 0;
    while src.len() > 0
        invariant
            0 <= i <= n,
            goal.len() == n,
            src@.len() == n - i,
            out@.len() == i,
            forall|k: int| 0 <= k < i ==> #[trigger] out@[k]@ == goal[k],
            forall|k: int| 0 <= k < n - i ==> #[trigger] goal[i + k] == (EntryView {
                lexeme: src@[k]@.lexeme,
                start: location.start as nat,
                end: location.end as nat,
            }),
        decreases src@.len(),
    {
        let ghost old_src = src@;
        let e = src.remove(0);
        assert(goal[i + 0] == (EntryView {
            lexeme: old_src[0]@.lexeme,
            start: location.start as nat,
            end: location.end as nat,
        }));
        out.push(Entry { lexeme: e.lexeme, range: Range { start: location.start, end: location.end } });
        proof {
            assert forall|k: int| 0 <= k < n - (i + 1) implies #[trigger] goal[(i + 1) + k] == (
            EntryView {
                lexeme: src@[k]@.lexeme,
                start: location.start as nat,
                end: location.end as nat,
            }) by {
                assert(src@[k] == old_src[k + 1]);
                assert(goal[i + (k + 1)] == (EntryView {
                    lexeme: old_src[k + 1]@.lexeme,
                    start: location.start as nat,
                    end: location.end as nat,
                }));
                assert((i + 1) + k == i + (k + 1));
            }
            i = i + 1;
        }
    }
    assert(entry_views(out@) =~= goal);
    out
}

/// Parse a ready-made sequence of lines that is known to be valid, trying
/// the lexer plugins `l` at every token and the line parsers `p` on every
/// line before the built-in rules and forms. Every
/// token, and so every expression and every entry, carries `location` in
/// place of a position in `text`, and so does an error of the lexer.
pub fn parse_entries_with<L: LexerPlugins, P: LineParsers>(
    text: &str,
    location: Range<usize>,
    l: &L,
    p: &P,
) -> (r: Result<Vec<SourceLine>, LexError>)
    requires
        lexed_with(*l, text@) is Some,
        lexed_with(*l, text@) matches Some(Ok(t)) ==> t.len() > 0 && all_lines_parse_with(*p, 
            whole(relocate(t, location.start as nat, location.end as nat)),
        ),
    ensures
        match r {
            Ok(v) => lexed_with(*l, text@) matches Some(Ok(t)) && lines_view(v@) == wrap_kinds(
                entries_from_with(*p, 
                    spec_split_lines(whole(relocate(t, location.start as nat, location.end as nat))),
                    0,
                ),
                location.start as nat,
                location.end as nat,
            ),
            Err(e) => lexed_with(*l, text@) matches Some(Err(le)) && e == (LexError {
                kind: le.kind,
                range: location,
            }),
        },
{
    let tokens = match lex_text_with(text, l) {
        Ok(t) => t,
        Err(e) => {
            return Err(LexError { kind: e.kind, range: location });
        },
    };
    let ghost t0 = entry_views(tokens@);
    let moved = relocate_exec(tokens, &location);
    let f = whole_frag(&moved);
    let ghost w = whole(entry_views(moved@));
    let lines = split_lines(f);
    let ghost ls = lines@.map_values(|l: Frag| l@);
    let ghost a = location.start as nat;
    let ghost b = location.end as nat;
    let mut out: Vec<SourceLine> = Vec::new();
    let mut k: usize = 0;
    assert(lines_view(out@) =~= Seq::<SourceLineView>::empty());
    assert(wrap_kinds(entries_from_with(*p, ls, 0), a, b) =~= Seq::<SourceLineView>::empty() + wrap_kinds(
        entries_from_with(*p, ls, 0),
        a,
        b,
    ));
    while k < lines.len()
        invariant
            k <= lines@.len(),
            ls == lines@.map_values(|l: Frag| l@),
            ls == spec_split_lines(w),
            all_lines_parse_with(*p, w),
            a == location.start as nat,
            b == location.end as nat,
            lines_view(out@) + wrap_kinds(entries_from_with(*p, ls, k as int), a, b) == wrap_kinds(
                entries_from_with(*p, ls, 0),
                a,
                b,
            ),
        decreases lines@.len() - k,
    {
        assert(lines@[k as int]@ == ls[k as int]);
        assert(spec_parse_line_with(*p, ls[k as int]) is Ok);
        let kinds = parse_line_with(lines[k], p).unwrap();
        let ghost kv = kinds@.map_values(|x: SourceLineKind| x@);
        let ghost base = lines_view(out@);
        let mut rest = kinds;
        let ghost mut j: int = 0;
        while rest.len() > 0
            invariant
                0 <= j <= kv.len(),
                rest@.map_values(|x: SourceLineKind| x@) == kv.skip(j),
                lines_view(out@) == base + wrap_kinds(kv.take(j), a, b),
                a == location.start as nat,
                b == location.end as nat,
            decreases rest@.len(),
        {
            let ghost old_rest = rest@;
            let item = rest.remove(0);
            let line = SourceLine { range: Range { start: location.start, end: location.end }, kind: item };
            let ghost prev = out@;
            out.push(line);
            proof {
                lemma_lines_push(prev, line);
                let rv = rest@.map_values(|x: SourceLineKind| x@);
                assert(old_rest.map_values(|x: SourceLineKind| x@).len() == old_rest.len());
                assert(old_rest.map_values(|x: SourceLineKind| x@)[0] == old_rest[0]@);
                assert(kv.skip(j)[0] == kv[j]);
                assert forall|i: int| 0 <= i < rv.len() implies #[trigger] rv[i] == kv.skip(j + 1)[i] by {
                    assert(rest@[i] == old_rest[i + 1]);
                    assert(old_rest.map_values(|x: SourceLineKind| x@)[i + 1] == old_rest[i + 1]@);
                    assert(kv.skip(j)[i + 1] == kv[j + i + 1]);
                }
                assert(rv =~= kv.skip(j + 1));
                assert(kind_view(line.kind) == kv[j]);
                assert(wrap_kinds(kv.take(j + 1), a, b) =~= wrap_kinds(kv.take(j), a, b).push(
                    SourceLineView { kind: kv[j], start: a, end: b },
                ));
                assert(base + wrap_kinds(kv.take(j + 1), a, b) =~= (base + wrap_kinds(kv.take(j), a, b)).push(
                    SourceLineView { kind: kv[j], start: a, end: b },
                ));
                j = j + 1;
            }
        }
        proof {
            assert(kv.take(j) =~= kv);
            assert(spec_parse_line_with(*p, ls[k as int]) == Ok::<Seq<SourceLineKindView>, ParseErrorView>(kv));
            assert(entries_from_with(*p, ls, k as int) == kv + entries_from_with(*p, ls, k + 1));
            assert(wrap_kinds(kv + entries_from_with(*p, ls, k + 1), a, b) =~= wrap_kinds(kv, a, b) + wrap_kinds(
                entries_from_with(*p, ls, k + 1),
                a,
                b,
            ));
            assert(base + wrap_kinds(kv, a, b) + wrap_kinds(entries_from_with(*p, ls, k + 1), a, b) =~= base + (
            wrap_kinds(kv, a, b) + wrap_kinds(entries_from_with(*p, ls, k + 1), a, b)));
        }
        k = k + 1;
    }
    proof {
        assert(lines_view(out@) + Seq::<SourceLineView>::empty() =~= lines_view(out@));
        assert(w == whole(relocate(t0, a, b)));
    }
    Ok(out)
}

/// The kinds of the lines `lines[k..]`, in order, with no line parsers.
pub open spec fn entries_from(lines: Seq<FragView>, k: int) -> Seq<SourceLineKindView> {
    entries_from_with(NoLineParsers, lines, k)
}

/// Whether every line of the fragment parses with no line parsers.
pub open spec fn all_lines_parse(f: FragView) -> bool {
    all_lines_parse_with(NoLineParsers, f)
}

/// Parse a ready-made sequence of lines that is known to be valid. Every
/// token, and so every expression and every entry, carries `location` in
/// place of a position in `text`, and so does an error of the lexer.
pub fn parse_entries(text: &str, location: Range<usize>) -> (r: Result<Vec<SourceLine>, LexError>)
    requires
        lexed(text@) is Some,
        lexed(text@) matches Some(Ok(t)) ==> t.len() > 0 && all_lines_parse(
            whole(relocate(t, location.start as nat, location.end as nat)),
        ),
    ensures
        match r {
            Ok(v) => lexed(text@) matches Some(Ok(t)) && lines_view(v@) == wrap_kinds(
                entries_from(
                    spec_split_lines(whole(relocate(t, location.start as nat, location.end as nat))),
                    0,
                ),
                location.start as nat,
                location.end as nat,
            ),
            Err(e) => lexed(text@) matches Some(Err(le)) && e == (LexError {
                kind: le.kind,
                range: location,
            }),
        },
{
    parse_entries_with(text, location, &NoLexerPlugins, &NoLineParsers)
}

} // verus!
