//! Parsing of lines and expressions out of token fragments.

use std::ops::Range;
use vstd::prelude::*;

use vstd::string::StrSliceExecFns;

use crate::errors::{
    eol_at, err_at, error_at, expect, expect_block, expect_name, lemma_expect_block_len, spec_expect,
    spec_expect_block, spec_expect_name, unexpected_eol, ParseError, ParseErrorKind,
    ParseErrorKindView, ParseErrorView,
};
use crate::frag::{
    last_or_fallback, lemma_trim_len, lemma_trim_plain, paren_level, spec_pop, spec_range, spec_trim,
    top_level, trim_seq, Frag, FragView,
};
use crate::lexer::{spec_is_filler, Entry, EntryView, Lexeme, LexemeView, PType};
use crate::multiname::{law_bracket_names_under, law_paren_names, paren_list, parse_multiname, spec_parse_multiname};
use crate::name::{seg_views, Sym, VName};
use crate::numeric::Numeric;
use crate::parsed::{
    export_view, exprs_view, lemma_exprs_empty, lemma_exprs_index, lemma_exprs_push,
    kind_view, lemma_lines_push, lines_view, Clause, ClauseView, Constant, ConstantView, Expr, ExprView,
    Import, ImportView, Member, MemberKind, MemberKindView, MemberView, ModuleBlock,
    ModuleBlockView, Rule, RuleView, SourceLine, SourceLineKind, SourceLineKindView,
    SourceLineView,
};
use crate::text::{is_char_str, str_eq};

verus! {

/// The fragments between line breaks outside parentheses, scanning from `i`
/// with the current line beginning at `begin` and nesting `lvl`. Every line
/// has the preceding line break as its fallback.
pub open spec fn raw_lines(s: Seq<EntryView>, fb: EntryView, begin: int, i: int, lvl: int) -> Seq<
    FragView,
>
    decreases s.len() - i,
{
    if i < 0 || i >= s.len() {
        seq![FragView { fallback: fb, data: s.subrange(begin, s.len() as int) }]
    } else {
        match s[i].lexeme {
            LexemeView::LP(_) => raw_lines(s, fb, begin, i + 1, lvl + 1),
            LexemeView::RP(_) => raw_lines(s, fb, begin, i + 1, lvl - 1),
            LexemeView::BR => if lvl == 0 {
                seq![FragView { fallback: fb, data: s.subrange(begin, i) }] + raw_lines(
                    s,
                    s[i],
                    i + 1,
                    i + 1,
                    0,
                )
            } else {
                raw_lines(s, fb, begin, i + 1, lvl)
            },
            _ => raw_lines(s, fb, begin, i + 1, lvl),
        }
    }
}

/// A trimmed line that is wrapped in a pair of round parentheses loses them.
pub open spec fn unwrap_line(l: FragView) -> FragView {
    if l.data.len() >= 2 && l.data[0].lexeme == LexemeView::LP(PType::Par) && l.data.last().lexeme
        == LexemeView::RP(PType::Par) {
        spec_trim(FragView { fallback: l.data[0], data: l.data.subrange(1, l.data.len() - 1) })
    } else {
        l
    }
}

/// A line as the module parser sees it.
pub open spec fn finish_line(l: FragView) -> FragView {
    unwrap_line(spec_trim(l))
}

/// The lines that hold at least one token, in order.
pub open spec fn keep_nonempty(v: Seq<FragView>) -> Seq<FragView>
    decreases v.len(),
{
    if v.len() == 0 {
        Seq::empty()
    } else if v.last().data.len() > 0 {
        keep_nonempty(v.drop_last()).push(v.last())
    } else {
        keep_nonempty(v.drop_last())
    }
}

/// What [split_lines] gives for a fragment.
pub open spec fn spec_split_lines(f: FragView) -> Seq<FragView> {
    keep_nonempty(raw_lines(f.data, f.fallback, 0, 0, 0).map_values(|l: FragView| finish_line(l)))
}

/// How many brackets of any kind are open before `s[i]`: the opening ones
/// among `s[..i]` less the closing ones.
pub open spec fn bracket_depth(s: Seq<EntryView>, i: int) -> int
    decreases i,
{
    if i <= 0 || i > s.len() {
        0
    } else {
        bracket_depth(s, i - 1) + match s[i - 1].lexeme {
            LexemeView::LP(_) => 1int,
            LexemeView::RP(_) => -1int,
            _ => 0int,
        }
    }
}

/// How many line breaks among `s[..i]` stand outside every bracket.
pub open spec fn top_breaks(s: Seq<EntryView>, i: int) -> nat
    decreases i,
{
    if i <= 0 || i > s.len() {
        0
    } else if s[i - 1].lexeme is BR && bracket_depth(s, i - 1) == 0 {
        top_breaks(s, i - 1) + 1
    } else {
        top_breaks(s, i - 1)
    }
}

proof fn lemma_top_breaks_mono(s: Seq<EntryView>, i: int, j: int)
    requires
        0 <= i <= j <= s.len(),
    ensures
        top_breaks(s, i) <= top_breaks(s, j),
    decreases j - i,
{
    if i < j {
        lemma_top_breaks_mono(s, i, j - 1);
    }
}

proof fn lemma_raw_lines_count(s: Seq<EntryView>, fb: EntryView, begin: int, i: int, lvl: int)
    requires
        0 <= begin <= i <= s.len(),
        lvl == bracket_depth(s, i),
    ensures
        raw_lines(s, fb, begin, i, lvl).len() == 1 + top_breaks(s, s.len() as int) - top_breaks(s, i),
    decreases s.len() - i,
{
    if i < s.len() {
        assert(bracket_depth(s, i + 1) == bracket_depth(s, i) + match s[i].lexeme {
            LexemeView::LP(_) => 1int,
            LexemeView::RP(_) => -1int,
            _ => 0int,
        });
        match s[i].lexeme {
            LexemeView::LP(_) => lemma_raw_lines_count(s, fb, begin, i + 1, lvl + 1),
            LexemeView::RP(_) => lemma_raw_lines_count(s, fb, begin, i + 1, lvl - 1),
            LexemeView::BR => if lvl == 0 {
                lemma_raw_lines_count(s, s[i], i + 1, i + 1, 0);
            } else {
                lemma_raw_lines_count(s, fb, begin, i + 1, lvl);
            },
            _ => lemma_raw_lines_count(s, fb, begin, i + 1, lvl),
        }
    }
}

proof fn lemma_raw_lines_whole(s: Seq<EntryView>, fb: EntryView, begin: int, i: int, lvl: int)
    requires
        0 <= begin <= i <= s.len(),
        lvl == bracket_depth(s, i),
        top_breaks(s, i) == top_breaks(s, s.len() as int),
    ensures
        raw_lines(s, fb, begin, i, lvl) == seq![FragView { fallback: fb, data: s.subrange(begin, s.len() as int) }],
    decreases s.len() - i,
{
    if i < s.len() {
        lemma_top_breaks_mono(s, i + 1, s.len() as int);
        lemma_top_breaks_mono(s, i, i + 1);
        assert(bracket_depth(s, i + 1) == bracket_depth(s, i) + match s[i].lexeme {
            LexemeView::LP(_) => 1int,
            LexemeView::RP(_) => -1int,
            _ => 0int,
        });
        match s[i].lexeme {
            LexemeView::LP(_) => lemma_raw_lines_whole(s, fb, begin, i + 1, lvl + 1),
            LexemeView::RP(_) => lemma_raw_lines_whole(s, fb, begin, i + 1, lvl - 1),
            _ => lemma_raw_lines_whole(s, fb, begin, i + 1, lvl),
        }
    }
}

proof fn lemma_keep_nonempty_len(v: Seq<FragView>)
    ensures
        keep_nonempty(v).len() <= v.len(),
    decreases v.len(),
{
    if v.len() > 0 {
        lemma_keep_nonempty_len(v.drop_last());
    }
}

/// Only a line break outside every bracket, round, square or curly, ends a
/// line: a fragment splits into one raw line more than it has such breaks,
/// and into at most that many lines once empty ones are dropped.
pub proof fn law_lines_at_top_breaks(f: FragView)
    ensures
        raw_lines(f.data, f.fallback, 0, 0, 0).len() == 1 + top_breaks(f.data, f.data.len() as int),
        spec_split_lines(f).len() <= 1 + top_breaks(f.data, f.data.len() as int),
{
    lemma_raw_lines_count(f.data, f.fallback, 0, 0, 0);
    lemma_keep_nonempty_len(
        raw_lines(f.data, f.fallback, 0, 0, 0).map_values(|l: FragView| finish_line(l)),
    );
}

/// A fragment whose line breaks all stand inside brackets is one line: the
/// whole fragment, trimmed and unwrapped, unless nothing is left of it.
pub proof fn law_one_line_inside_brackets(f: FragView)
    requires
        top_breaks(f.data, f.data.len() as int) == 0,
    ensures
        spec_split_lines(f) == if finish_line(f).data.len() > 0 {
            seq![finish_line(f)]
        } else {
            Seq::<FragView>::empty()
        },
{
    let s = f.data;
    lemma_raw_lines_whole(s, f.fallback, 0, 0, 0);
    assert(s.subrange(0, s.len() as int) =~= s);
    assert(FragView { fallback: f.fallback, data: s.subrange(0, s.len() as int) } == f);
    let v = raw_lines(s, f.fallback, 0, 0, 0).map_values(|l: FragView| finish_line(l));
    assert(v =~= seq![finish_line(f)]);
    assert(v.drop_last() =~= Seq::<FragView>::empty());
    assert(keep_nonempty(v.drop_last()) == Seq::<FragView>::empty());
    assert(v.last() == finish_line(f));
    assert(Seq::<FragView>::empty().push(finish_line(f)) =~= seq![finish_line(f)]);
}

fn unwrap_line_exec<'a>(l: Frag<'a>) -> (r: Frag<'a>)
    ensures
        r@ == unwrap_line(l@),
        r@.data.len() <= l@.data.len(),
{
    let n = l.data.len();
    if n >= 2 {
        let is_lp = match l.data[0].lexeme {
            Lexeme::LP(PType::Par) => true,
            _ => false,
        };
        let is_rp = match l.data[n - 1].lexeme {
            Lexeme::RP(PType::Par) => true,
            _ => false,
        };
        if is_lp && is_rp {
            let inner = Frag { fallback: &l.data[0], data: &l.data[1..n - 1] };
            assert(inner@.data =~= l@.data.subrange(1, l@.data.len() - 1));
            return inner.trim();
        }
    }
    l
}

/// Split the fragment at each line break outside parentheses
pub fn split_lines<'a>(module: Frag<'a>) -> (r: Vec<Frag<'a>>)
    ensures
        r@.map_values(|f: Frag<'a>| f@) == spec_split_lines(module@),
        forall|k: int| 0 <= k < r@.len() ==> #[trigger] r@[k]@.data.len() <= module@.data.len(),
        forall|k: int| 0 <= k < r@.len() ==> #[trigger] r@[k]@.data.len() > 0,
{
    let data = module.data;
    let n = data.len();
    let ghost s = module@.data;
    let mut raw: Vec<Frag<'a>> = Vec::new();
    let mut fallback = module.fallback;
    let mut begin: usize = 0;
    let mut lvl: i128 = 0;
    let mut i: usize = 0;
    while i < n
        invariant
            begin <= i <= n,
            n == data@.len(),
            s == data@.map_values(|e: Entry| e@),
            s == module@.data,
            -(i as int) <= lvl <= i,
            forall|k: int| 0 <= k < raw@.len() ==> #[trigger] raw@[k]@.data.len() <= n,
            raw@.map_values(|f: Frag<'a>| f@) + raw_lines(s, fallback@, begin as int, i as int, lvl as int)
                == raw_lines(s, module@.fallback, 0, 0, 0),
        decreases n - i,
    {
        let ghost before = raw@.map_values(|f: Frag<'a>| f@);
        match data[i].lexeme {
            Lexeme::LP(_) => {
                lvl = lvl + 1;
            },
            Lexeme::RP(_) => {
                lvl = lvl - 1;
            },
            Lexeme::BR => {
                if lvl == 0 {
                    let line = Frag { fallback, data: &data[begin..i] };
                    assert(line@.data =~= s.subrange(begin as int, i as int));
                    raw.push(line);
                    assert(raw@.map_values(|f: Frag<'a>| f@) =~= before.push(line@));
                    fallback = &data[i];
                    begin = i + 1;
                }
            },
            _ => {},
        }
        i = i + 1;
    }
    let last = Frag { fallback, data: &data[begin..n] };
    assert(last@.data =~= s.subrange(begin as int, n as int));
    let ghost before = raw@.map_values(|f: Frag<'a>| f@);
    raw.push(last);
    assert(raw@.map_values(|f: Frag<'a>| f@) =~= before.push(last@));
    assert(raw@.map_values(|f: Frag<'a>| f@) =~= raw_lines(s, module@.fallback, 0, 0, 0));
    let ghost rv = raw@.map_values(|f: Frag<'a>| f@);
    let mut out: Vec<Frag<'a>> = Vec::new();
    let mut k: usize = 0;
    while k < raw.len()
        invariant
            k <= raw@.len(),
            rv == raw@.map_values(|f: Frag<'a>| f@),
            n == module@.data.len(),
            forall|j: int| 0 <= j < raw@.len() ==> #[trigger] raw@[j]@.data.len() <= n,
            forall|j: int| 0 <= j < out@.len() ==> #[trigger] out@[j]@.data.len() <= n,
            forall|j: int| 0 <= j < out@.len() ==> #[trigger] out@[j]@.data.len() > 0,
            out@.map_values(|f: Frag<'a>| f@) == keep_nonempty(
                rv.map_values(|l: FragView| finish_line(l)).take(k as int),
            ),
        decreases raw@.len() - k,
    {
        let line = unwrap_line_exec(raw[k].trim());
        let ghost fl = rv.map_values(|l: FragView| finish_line(l));
        assert(fl.take(k + 1).drop_last() =~= fl.take(k as int));
        assert(fl.take(k + 1).last() == line@);
        if line.data.len() > 0 {
            let ghost before = out@.map_values(|f: Frag<'a>| f@);
            out.push(line);
            assert(out@.map_values(|f: Frag<'a>| f@) =~= before.push(line@));
        }
        k = k + 1;
    }
    assert(rv.map_values(|l: FragView| finish_line(l)).take(raw@.len() as int) =~= rv.map_values(
        |l: FragView| finish_line(l),
    ));
    out
}


/// The fragment without its first entry; meaningful when it has one.
pub open spec fn drop_head(c: FragView) -> FragView {
    FragView { fallback: c.data[0], data: c.data.drop_first() }
}

/// An expression view with a range.
pub open spec fn ev(value: ClauseView, start: nat, end: nat) -> ExprView {
    ExprView { value, start, end }
}

/// The `.` that separates a lambda's argument from its body.
pub open spec fn is_dot(l: LexemeView) -> bool {
    l == LexemeView::Name(seq!['.'])
}

/// The first top-level entry at or after `i` whose lexeme satisfies `p`.
pub open spec fn first_top(s: Seq<EntryView>, i: int, p: spec_fn(LexemeView) -> bool) -> Option<int>
    decreases s.len() - i,
{
    if i < 0 || i >= s.len() {
        None
    } else if top_level(s, i) && p(s[i].lexeme) {
        Some(i)
    } else {
        first_top(s, i + 1, p)
    }
}

/// Split a fragment at its first top-level `.`.
pub open spec fn spec_find_dot(f: FragView) -> Result<(FragView, FragView), ParseErrorView> {
    match first_top(f.data, 0, |l: LexemeView| is_dot(l)) {
        None => Err(
            ParseErrorView {
                kind: ParseErrorKindView::NotFound("A '.'"@),
                start: spec_range(f).0,
                end: spec_range(f).1,
            },
        ),
        Some(i) => Ok(
            (
                FragView { fallback: f.fallback, data: f.data.take(i) },
                FragView { fallback: f.data[i], data: f.data.skip(i + 1) },
            ),
        ),
    }
}

/// The segments of a name `n :: m :: ...` whose first segment `c.data[0]`
/// was already read into `names`, and the fragment from its last segment on.
pub open spec fn name_chain(c: FragView, names: Seq<Seq<char>>) -> Result<
    (Seq<Seq<char>>, FragView),
    ParseErrorView,
>
    decreases c.data.len(),
{
    if c.data.len() > 1 && c.data[1].lexeme is NS {
        if c.data.len() > 2 {
            match c.data[2].lexeme {
                LexemeView::Name(m) => name_chain(
                    FragView { fallback: c.data[1], data: c.data.skip(2) },
                    names.push(m),
                ),
                other => Err(err_at(ParseErrorKindView::ExpectedName(other), c.data[2])),
            }
        } else {
            Err(eol_at(last_or_fallback(c)))
        }
    } else {
        Ok((names, c))
    }
}

/// A sequence of expressions read from a trimmed fragment after `out`, up to
/// the closing `paren` or the end; the fragment after it.
pub open spec fn exprv_loop(c: FragView, paren: Option<PType>, out: Seq<ExprView>) -> Result<
    (Seq<ExprView>, FragView),
    ParseErrorView,
>
    decreases c.data.len(), 0int,
{
    if c.data.len() == 0 {
        Ok((out, FragView { fallback: c.fallback, data: Seq::empty() }))
    } else {
        let cur = c.data[0];
        let next = spec_trim(drop_head(c));
        match cur.lexeme {
            LexemeView::At => Err(err_at(ParseErrorKindView::ReservedToken(cur.lexeme), cur)),
            LexemeView::Type => Err(err_at(ParseErrorKindView::ReservedToken(cur.lexeme), cur)),
            LexemeView::Atom(a) => if next.data.len() < c.data.len() {
                exprv_loop(next, paren, out.push(ev(ClauseView::Atom(a), cur.start, cur.end)))
            } else {
                Err(eol_at(cur))
            },
            LexemeView::Placeh(p) => if next.data.len() < c.data.len() {
                exprv_loop(next, paren, out.push(ev(ClauseView::Placeh(p), cur.start, cur.end)))
            } else {
                Err(eol_at(cur))
            },
            LexemeView::Name(n) => match name_chain(c, seq![n]) {
                Err(e) => Err(e),
                Ok((names, c2)) => if c2.data.len() > 0 && spec_trim(drop_head(c2)).data.len()
                    < c.data.len() {
                    exprv_loop(
                        spec_trim(drop_head(c2)),
                        paren,
                        out.push(ev(ClauseView::Name(names), spec_range(c).0, spec_range(c).1)),
                    )
                } else {
                    Err(eol_at(cur))
                },
            },
            LexemeView::NS => Err(err_at(ParseErrorKindView::LeadingNS, cur)),
            LexemeView::RP(p) => if paren == Some(p) {
                Ok((out, drop_head(c)))
            } else {
                Err(err_at(ParseErrorKindView::MisalignedParen(cur.lexeme), cur))
            },
            LexemeView::LP(p) => match spec_exprv(drop_head(c), Some(p)) {
                Err(e) => Err(e),
                Ok((inner, left)) => if spec_trim(left).data.len() < c.data.len() {
                    exprv_loop(
                        spec_trim(left),
                        paren,
                        out.push(ev(ClauseView::S(p, inner), cur.start, left.fallback.end)),
                    )
                } else {
                    Err(eol_at(cur))
                },
            },
            LexemeView::BS => match spec_find_dot(drop_head(c)) {
                Err(e) => Err(e),
                Ok((arg, body)) => if arg.data.len() < c.data.len() && body.data.len()
                    < c.data.len() {
                    match spec_exprv(arg, None) {
                        Err(e) => Err(e),
                        Ok((argv, _)) => match spec_exprv(body, paren) {
                            Err(e) => Err(e),
                            Ok((bodyv, left)) => Ok(
                                (
                                    out.push(
                                        ev(
                                            ClauseView::Lambda(argv, bodyv),
                                            spec_range(c).0,
                                            spec_range(c).1,
                                        ),
                                    ),
                                    left,
                                ),
                            ),
                        },
                    }
                } else {
                    Err(eol_at(cur))
                },
            },
            _ => Err(
                err_at(
                    ParseErrorKindView::BadTokenInRegion {
                        lexeme: cur.lexeme,
                        region: "expression"@,
                    },
                    cur,
                ),
            ),
        }
    }
}

/// What [parse_exprv] gives for a fragment: the expressions up to the
/// closing `paren` (or the end, for `None`), and the fragment after it.
pub open spec fn spec_exprv(f: FragView, paren: Option<PType>) -> Result<
    (Seq<ExprView>, FragView),
    ParseErrorView,
>
    decreases f.data.len(), 1int,
{
    if spec_trim(f).data.len() <= f.data.len() {
        exprv_loop(spec_trim(f), paren, Seq::empty())
    } else {
        Err(eol_at(f.fallback))
    }
}

/// Whether an entry is a value that stands for itself in an expression: a
/// literal or a placeholder.
pub open spec fn is_value_entry(e: EntryView) -> bool {
    e.lexeme is Atom || e.lexeme is Placeh
}

/// The expressions a run of literals and placeholders stands for: one each,
/// with its range.
pub open spec fn value_exprs(d: Seq<EntryView>) -> Seq<ExprView> {
    d.map_values(
        |e: EntryView|
            ev(
                if e.lexeme is Atom {
                    ClauseView::Atom(e.lexeme->Atom_0)
                } else {
                    ClauseView::Placeh(e.lexeme->Placeh_0)
                },
                e.start,
                e.end,
            ),
    )
}

proof fn lemma_exprv_values(
    d: Seq<EntryView>,
    i: int,
    tail: Seq<EntryView>,
    fb: EntryView,
    paren: Option<PType>,
    out: Seq<ExprView>,
)
    requires
        0 <= i <= d.len(),
        forall|k: int| 0 <= k < d.len() ==> is_value_entry(#[trigger] d[k]),
        tail.len() == 0 || (!spec_is_filler(tail[0].lexeme) && !spec_is_filler(tail.last().lexeme)),
    ensures
        exprv_loop(FragView { fallback: fb, data: d.skip(i) + tail }, paren, out) == exprv_loop(
            FragView { fallback: if i < d.len() { d.last() } else { fb }, data: tail },
            paren,
            out + value_exprs(d.skip(i)),
        ),
    decreases d.len() - i,
{
    if i < d.len() {
        let c = FragView { fallback: fb, data: d.skip(i) + tail };
        let cur = d[i];
        assert(c.data[0] == cur);
        assert(is_value_entry(cur));
        let rest = d.skip(i + 1) + tail;
        assert(drop_head(c).data =~= rest);
        if rest.len() > 0 {
            if i + 1 < d.len() {
                assert(rest[0] == d[i + 1]);
                assert(is_value_entry(d[i + 1]));
            } else {
                assert(rest[0] == tail[0]);
            }
            if tail.len() > 0 {
                assert(rest.last() == tail.last());
            } else {
                assert(rest.last() == d.last());
                assert(is_value_entry(d[d.len() - 1]));
            }
            lemma_trim_plain(rest);
        } else {
            assert(trim_seq(rest) =~= rest);
        }
        assert(spec_trim(drop_head(c)) == FragView { fallback: cur, data: rest });
        let x = ev(
            if cur.lexeme is Atom {
                ClauseView::Atom(cur.lexeme->Atom_0)
            } else {
                ClauseView::Placeh(cur.lexeme->Placeh_0)
            },
            cur.start,
            cur.end,
        );
        lemma_exprv_values(d, i + 1, tail, cur, paren, out.push(x));
        assert(out.push(x) + value_exprs(d.skip(i + 1)) =~= out + value_exprs(d.skip(i)));
        if i + 1 == d.len() {
            assert(d.last() == cur);
        }
    } else {
        assert(d.skip(i) + tail =~= tail);
        assert(value_exprs(d.skip(i)) =~= Seq::<ExprView>::empty());
        assert(out + value_exprs(d.skip(i)) =~= out);
    }
}

/// A run of literals and placeholders is read as one expression each, in
/// their order, each with the value and range of its token.
pub proof fn law_exprv_values(f: FragView)
    requires
        forall|k: int| 0 <= k < f.data.len() ==> is_value_entry(#[trigger] f.data[k]),
    ensures
        spec_exprv(f, None) matches Ok((v, rest)) && v == value_exprs(f.data) && rest.data.len() == 0,
{
    let d = f.data;
    if d.len() > 0 {
        assert(is_value_entry(d[0]));
        assert(is_value_entry(d[d.len() - 1]));
        lemma_trim_plain(d);
    } else {
        assert(trim_seq(d) =~= d);
    }
    assert(spec_trim(f) == f);
    assert(d.skip(0) + Seq::<EntryView>::empty() =~= d);
    lemma_exprv_values(d, 0, Seq::empty(), f.fallback, None, Seq::empty());
    assert(Seq::<ExprView>::empty() + value_exprs(d.skip(0)) =~= value_exprs(d));
}

/// A bracketed run of literals and placeholders is read as one expression of
/// that bracket's kind, which holds one expression for each of them, in
/// their order, and spans the brackets.
pub proof fn law_exprv_group(f: FragView, p: PType)
    requires
        f.data.len() >= 2,
        f.data[0].lexeme == LexemeView::LP(p),
        f.data.last().lexeme == LexemeView::RP(p),
        forall|k: int| 1 <= k < f.data.len() - 1 ==> is_value_entry(#[trigger] f.data[k]),
    ensures
        spec_exprv(f, None) matches Ok((v, rest)) && rest.data.len() == 0 && v == seq![
            ev(
                ClauseView::S(p, value_exprs(f.data.subrange(1, f.data.len() - 1))),
                f.data[0].start,
                f.data.last().end,
            ),
        ],
{
    let d = f.data;
    let n = d.len() as int;
    let lp = d[0];
    let rp = d[n - 1];
    let vals = d.subrange(1, n - 1);
    lemma_trim_plain(d);
    assert(spec_trim(f) == f);
    let inner = drop_head(f);
    assert(inner.data =~= vals.skip(0) + seq![rp]);
    lemma_trim_plain(inner.data);
    assert(spec_trim(inner) == inner);
    assert forall|k: int| 0 <= k < vals.len() implies is_value_entry(#[trigger] vals[k]) by {
        assert(vals[k] == d[k + 1]);
    }
    lemma_exprv_values(vals, 0, seq![rp], lp, Some(p), Seq::empty());
    let fb2 = if 0 < vals.len() {
        vals.last()
    } else {
        lp
    };
    let c2 = FragView { fallback: fb2, data: seq![rp] };
    let inner_v = Seq::<ExprView>::empty() + value_exprs(vals.skip(0));
    assert(inner_v =~= value_exprs(vals));
    assert(exprv_loop(c2, Some(p), inner_v) == Ok::<(Seq<ExprView>, FragView), ParseErrorView>(
        (inner_v, drop_head(c2)),
    ));
    let left = drop_head(c2);
    assert(left.data =~= Seq::<EntryView>::empty());
    assert(trim_seq(left.data) =~= left.data);
    assert(spec_exprv(inner, Some(p)) == Ok::<(Seq<ExprView>, FragView), ParseErrorView>(
        (inner_v, left),
    ));
    let x = ev(ClauseView::S(p, inner_v), lp.start, rp.end);
    assert(Seq::<ExprView>::empty().push(x) =~= seq![x]);
    assert(left.fallback == rp);
    assert(spec_trim(left) == left);
    assert(exprv_loop(f, None, Seq::empty()) == exprv_loop(left, None, Seq::<ExprView>::empty().push(x)));
    assert(exprv_loop(left, None, seq![x]) == Ok::<(Seq<ExprView>, FragView), ParseErrorView>(
        (seq![x], FragView { fallback: rp, data: Seq::empty() }),
    ));
    assert(vals =~= f.data.subrange(1, f.data.len() - 1));
}

fn name_chain_exec<'a>(c: Frag<'a>, names: Vec<String>) -> (r: Result<(Vec<String>, Frag<'a>), ParseError>)
    requires
        c@.data.len() > 0,
    ensures
        match r {
            Ok((v, c2)) => name_chain(c@, seg_views(names@)) == Ok::<
                (Seq<Seq<char>>, FragView),
                ParseErrorView,
            >((seg_views(v@), c2@)) && 0 < c2@.data.len() <= c@.data.len() && v@.len()
                >= names@.len(),
            Err(e) => name_chain(c@, seg_views(names@)) == Err::<
                (Seq<Seq<char>>, FragView),
                ParseErrorView,
            >(e@),
        },
    decreases c@.data.len(),
{
    let n = c.data.len();
    let is_ns = n > 1 && match c.data[1].lexeme {
        Lexeme::NS => true,
        _ => false,
    };
    if !is_ns {
        return Ok((names, c));
    }
    let third = c.get(2)?;
    match &third.lexeme {
        Lexeme::Name(m) => {
            let mut names = names;
            let ghost before = seg_views(names@);
            names.push(m.clone());
            assert(seg_views(names@) =~= before.push(m@));
            let (_, rest) = c.data.split_at(2);
            let next = Frag { fallback: &c.data[1], data: rest };
            assert(next@.data =~= c@.data.skip(2));
            name_chain_exec(next, names)
        },
        _ => Err(error_at(ParseErrorKind::ExpectedName(third.lexeme.clone()), third)),
    }
}

fn find_dot<'a>(f: Frag<'a>) -> (r: Result<(Frag<'a>, Frag<'a>), ParseError>)
    ensures
        match r {
            Ok((a, b)) => spec_find_dot(f@) == Ok::<(FragView, FragView), ParseErrorView>((a@, b@))
                && a@.data.len() < f@.data.len() && b@.data.len() < f@.data.len(),
            Err(e) => spec_find_dot(f@) == Err::<(FragView, FragView), ParseErrorView>(e@),
        },
{
    let pick = |l: &Lexeme| -> (o: Option<()>)
        ensures
            o is Some <==> is_dot(l@),
        {
            match l {
                Lexeme::Name(n) => {
                    if is_char_str(n, '.') {
                        Some(())
                    } else {
                        None
                    }
                },
                _ => None,
            }
        };
    match f.find_map("A '.'", pick) {
        Ok((a, _, b)) => {
            proof {
                let i = choose|i: int|
                    0 <= i < f@.data.len() && top_level(f@.data, i) && call_ensures(
                        pick,
                        (&f.data@[i].lexeme,),
                        Some(()),
                    ) && (forall|j: int|
                        0 <= j < i && top_level(f@.data, j) ==> call_ensures(
                            pick,
                            (&f.data@[j].lexeme,),
                            None,
                        )) && a@ == FragView { fallback: f@.fallback, data: f@.data.take(i) }
                        && b@ == FragView { fallback: f@.data[i], data: f@.data.skip(i + 1) };
                assert(forall|j: int| 0 <= j < f@.data.len() ==> f@.data[j] == f.data@[j]@);
                lemma_first_top(f@.data, 0, i, |l: LexemeView| is_dot(l));
            }
            Ok((a, b))
        },
        Err(e) => {
            proof {
                assert(forall|j: int| 0 <= j < f@.data.len() ==> f@.data[j] == f.data@[j]@);
                lemma_no_top(f@.data, 0, |l: LexemeView| is_dot(l));
            }
            Err(e)
        },
    }
}

proof fn lemma_first_top(s: Seq<EntryView>, k: int, i: int, p: spec_fn(LexemeView) -> bool)
    requires
        0 <= k <= i < s.len(),
        top_level(s, i) && p(s[i].lexeme),
        forall|j: int| k <= j < i && top_level(s, j) ==> !p(s[j].lexeme),
    ensures
        first_top(s, k, p) == Some(i),
    decreases i - k,
{
    if k < i {
        lemma_first_top(s, k + 1, i, p);
    }
}

proof fn lemma_no_top(s: Seq<EntryView>, k: int, p: spec_fn(LexemeView) -> bool)
    requires
        0 <= k <= s.len(),
        forall|j: int| k <= j < s.len() && top_level(s, j) ==> !p(s[j].lexeme),
    ensures
        first_top(s, k, p) is None,
    decreases s.len() - k,
{
    if k < s.len() {
        lemma_no_top(s, k + 1, p);
    }
}

/// Parse a sequence of expressions up to the closing `paren` (or the end of
/// the fragment, for `None`); also gives the fragment after the closing
/// parenthesis.
pub fn parse_exprv<'a>(cursor: Frag<'a>, paren: Option<PType>) -> (r: Result<
    (Vec<Expr>, Frag<'a>),
    ParseError,
>)
    ensures
        match r {
            Ok((v, left)) => spec_exprv(cursor@, paren) == Ok::<
                (Seq<ExprView>, FragView),
                ParseErrorView,
            >((exprs_view(v@), left@)) && left@.data.len() <= cursor@.data.len(),
            Err(e) => spec_exprv(cursor@, paren) == Err::<
                (Seq<ExprView>, FragView),
                ParseErrorView,
            >(e@),
        },
    decreases cursor@.data.len(),
{
    let ghost target = spec_exprv(cursor@, paren);
    let ghost total = cursor@.data.len();
    let mut output: Vec<Expr> = Vec::new();
    let mut cur_frag = cursor.trim();
    proof {
        lemma_exprs_empty(output@);
    }
    while cur_frag.data.len() > 0
        invariant
            exprv_loop(cur_frag@, paren, exprs_view(output@)) == target,
            cur_frag@.data.len() <= total,
            total == cursor@.data.len(),
            target == spec_exprv(cursor@, paren),
        decreases cur_frag@.data.len(),
    {
        let c = cur_frag;
        let n = c.data.len();
        let cur = &c.data[0];
        let (_, rest) = c.data.split_at(1);
        let tail = Frag { fallback: cur, data: rest };
        assert(tail@ == drop_head(c@)) by {
            assert(tail@.data =~= c@.data.drop_first());
        }
        let ghost before = output@;
        match &cur.lexeme {
            Lexeme::At => {
                return Err(error_at(ParseErrorKind::ReservedToken(cur.lexeme.clone()), cur));
            },
            Lexeme::Type => {
                return Err(error_at(ParseErrorKind::ReservedToken(cur.lexeme.clone()), cur));
            },
            Lexeme::Atom(a) => {
                let e = Expr {
                    value: Clause::Atom(a.clone()),
                    range: Range { start: cur.range.start, end: cur.range.end },
                };
                output.push(e);
                proof {
                    lemma_exprs_push(before, e);
                }
                cur_frag = tail.trim();
            },
            Lexeme::Placeh(p) => {
                let e = Expr {
                    value: Clause::Placeh(p.clone()),
                    range: Range { start: cur.range.start, end: cur.range.end },
                };
                output.push(e);
                proof {
                    lemma_exprs_push(before, e);
                }
                cur_frag = tail.trim();
            },
            Lexeme::Name(nm) => {
                let range = c.range();
                let first = vec![nm.clone()];
                assert(seg_views(first@) =~= seq![nm@]);
                let (names, c2) = name_chain_exec(c, first)?;
                let sym = Sym::new(names).unwrap();
                let e = Expr { value: Clause::Name(sym), range };
                output.push(e);
                proof {
                    lemma_exprs_push(before, e);
                }
                let (_, rest2) = c2.data.split_at(1);
                let tail2 = Frag { fallback: &c2.data[0], data: rest2 };
                assert(tail2@.data =~= drop_head(c2@).data);
                cur_frag = tail2.trim();
            },
            Lexeme::NS => {
                return Err(error_at(ParseErrorKind::LeadingNS, cur));
            },
            Lexeme::RP(p) => {
                let matches_paren = match paren {
                    Some(q) => q == *p,
                    None => false,
                };
                if matches_paren {
                    return Ok((output, tail));
                } else {
                    return Err(error_at(ParseErrorKind::MisalignedParen(cur.lexeme.clone()), cur));
                }
            },
            Lexeme::LP(p) => {
                let (inner, left) = parse_exprv(tail, Some(*p))?;
                let e = Expr {
                    value: Clause::S(*p, inner),
                    range: Range { start: cur.range.start, end: left.fallback.range.end },
                };
                output.push(e);
                proof {
                    lemma_exprs_push(before, e);
                }
                cur_frag = left.trim();
            },
            Lexeme::BS => {
                let range = c.range();
                let (arg, body) = find_dot(tail)?;
                let (argv, _) = parse_exprv(arg, None)?;
                let (bodyv, left) = parse_exprv(body, paren)?;
                let e = Expr { value: Clause::Lambda(argv, bodyv), range };
                output.push(e);
                proof {
                    lemma_exprs_push(before, e);
                }
                return Ok((output, left));
            },
            _ => {
                return Err(
                    error_at(
                        ParseErrorKind::BadTokenInRegion {
                            lexeme: cur.lexeme.clone(),
                            region: "expression",
                        },
                        cur,
                    ),
                );
            },
        }
    }
    let empty = Frag { fallback: cur_frag.fallback, data: &cur_frag.data[0..0] };
    assert(empty@.data =~= Seq::<EntryView>::empty());
    Ok((output, empty))
}

/// What [vec_to_single] gives: the only expression, or several wrapped in
/// round parentheses.
pub open spec fn spec_vec_to_single(fb: EntryView, v: Seq<ExprView>) -> Result<ExprView, ParseErrorView> {
    if v.len() == 0 {
        Err(eol_at(fb))
    } else if v.len() == 1 {
        Ok(v[0])
    } else {
        Ok(ExprView { value: ClauseView::S(PType::Par, v), start: v[0].start, end: v.last().end })
    }
}

/// Wrap an expression list in parentheses if necessary
pub fn vec_to_single(fallback: &Entry, v: Vec<Expr>) -> (r: Result<Expr, ParseError>)
    ensures
        match r {
            Ok(e) => spec_vec_to_single(fallback@, exprs_view(v@)) == Ok::<ExprView, ParseErrorView>(e@),
            Err(err) => spec_vec_to_single(fallback@, exprs_view(v@)) == Err::<ExprView, ParseErrorView>(
                err@,
            ),
        },
{
    proof {
        lemma_exprs_index(v@, v@.len() as int);
    }
    let n = v.len();
    if n == 0 {
        return Err(unexpected_eol(fallback));
    }
    if n == 1 {
        let mut v = v;
        let e = v.pop().unwrap();
        return Ok(e);
    }
    let start = v[0].range.start;
    let end = v[n - 1].range.end;
    Ok(Expr { value: Clause::S(PType::Par, v), range: Range { start, end } })
}

/// The priority of a macro arrow.
pub open spec fn arrow_prio(l: LexemeView) -> Option<Numeric> {
    match l {
        LexemeView::Arrow(n) => Some(n),
        _ => None,
    }
}

/// What [parse_rule] gives: the expressions on either side of the first
/// top-level arrow, and its priority.
pub open spec fn spec_parse_rule(f: FragView) -> Result<RuleView, ParseErrorView> {
    match first_top(f.data, 0, |l: LexemeView| arrow_prio(l) is Some) {
        None => Err(
            ParseErrorView {
                kind: ParseErrorKindView::NotFound("arrow"@),
                start: spec_range(f).0,
                end: spec_range(f).1,
            },
        ),
        Some(i) => match spec_exprv(FragView { fallback: f.fallback, data: f.data.take(i) }, None) {
            Err(e) => Err(e),
            Ok((pattern, _)) => match spec_exprv(
                FragView { fallback: f.data[i], data: f.data.skip(i + 1) },
                None,
            ) {
                Err(e) => Err(e),
                Ok((template, _)) => Ok(
                    RuleView { pattern, prio: arrow_prio(f.data[i].lexeme).unwrap(), template },
                ),
            },
        },
    }
}

/// Parse a macro rule
pub fn parse_rule(cursor: Frag<'_>) -> (r: Result<Rule, ParseError>)
    ensures
        match r {
            Ok(rule) => spec_parse_rule(cursor@) == Ok::<RuleView, ParseErrorView>(rule@),
            Err(e) => spec_parse_rule(cursor@) == Err::<RuleView, ParseErrorView>(e@),
        },
{
    let pick = |a: &Lexeme| -> (o: Option<Numeric>)
        ensures
            o == arrow_prio(a@),
        {
            match a {
                Lexeme::Arrow(p) => Some(*p),
                _ => None,
            }
        };
    let ghost is_arrow = |l: LexemeView| arrow_prio(l) is Some;
    let (pattern, prio, template) = match cursor.find_map("arrow", pick) {
        Ok((a, t, b)) => {
            proof {
                let i = choose|i: int|
                    0 <= i < cursor@.data.len() && top_level(cursor@.data, i) && call_ensures(
                        pick,
                        (&cursor.data@[i].lexeme,),
                        Some(t),
                    ) && (forall|j: int|
                        0 <= j < i && top_level(cursor@.data, j) ==> call_ensures(
                            pick,
                            (&cursor.data@[j].lexeme,),
                            None,
                        )) && a@ == FragView {
                        fallback: cursor@.fallback,
                        data: cursor@.data.take(i),
                    } && b@ == FragView {
                        fallback: cursor@.data[i],
                        data: cursor@.data.skip(i + 1),
                    };
                assert(forall|j: int|
                    0 <= j < cursor@.data.len() ==> cursor@.data[j] == cursor.data@[j]@);
                lemma_first_top(cursor@.data, 0, i, is_arrow);
                assert(arrow_prio(cursor@.data[i].lexeme) == Some(t));
            }
            (a, t, b)
        },
        Err(e) => {
            proof {
                assert(forall|j: int|
                    0 <= j < cursor@.data.len() ==> cursor@.data[j] == cursor.data@[j]@);
                lemma_no_top(cursor@.data, 0, is_arrow);
            }
            return Err(e);
        },
    };
    let (pattern, _) = parse_exprv(pattern, None)?;
    let (template, _) = parse_exprv(template, None)?;
    Ok(Rule { pattern, prio, template })
}

/// What [parse_const] gives: the name before `:=` and the expression after
/// it.
pub open spec fn spec_parse_const(f: FragView) -> Result<ConstantView, ParseErrorView> {
    match spec_pop(spec_trim(f)) {
        Err(e) => Err(e),
        Ok((name_ent, c1)) => match spec_expect_name(name_ent) {
            Err(e) => Err(e),
            Ok(name) => match spec_pop(spec_trim(c1)) {
                Err(e) => Err(e),
                Ok((walrus, c2)) => match spec_expect(LexemeView::Walrus, walrus) {
                    Err(e) => Err(e),
                    Ok(_) => match spec_exprv(c2, None) {
                        Err(e) => Err(e),
                        Ok((body, _)) => match spec_vec_to_single(walrus, body) {
                            Err(e) => Err(e),
                            Ok(value) => Ok(ConstantView { name, value }),
                        },
                    },
                },
            },
        },
    }
}

/// Parse a constant declaration
pub fn parse_const(cursor: Frag<'_>) -> (r: Result<Constant, ParseError>)
    ensures
        match r {
            Ok(c) => spec_parse_const(cursor@) == Ok::<ConstantView, ParseErrorView>(c@),
            Err(e) => spec_parse_const(cursor@) == Err::<ConstantView, ParseErrorView>(e@),
        },
{
    let (name_ent, rest) = cursor.trim().pop()?;
    let name = expect_name(name_ent)?;
    let (walrus_ent, rest) = rest.trim().pop()?;
    expect(Lexeme::Walrus, walrus_ent)?;
    let (body, _) = parse_exprv(rest, None)?;
    let value = vec_to_single(walrus_ent, body)?;
    Ok(Constant { name, value })
}

/// Whether a multiname is a single name, neither a glob nor a branch.
pub open spec fn single_name(v: Seq<ImportView>) -> bool {
    v.len() == 1 && v[0].name is Some
}

/// What [parse_nsname] gives: the segments of the one name the fragment
/// starts with, and the fragment after it.
pub open spec fn spec_parse_nsname(f: FragView) -> Result<(Seq<Seq<char>>, FragView), ParseErrorView> {
    match spec_parse_multiname(f) {
        Err(e) => Err(e),
        Ok((names, tail)) => if single_name(names) {
            Ok((names[0].path.push(names[0].name.unwrap()), tail))
        } else {
            Err(
                ParseErrorView {
                    kind: ParseErrorKindView::ExpectedSingleName,
                    start: f.data[0].start,
                    end: tail.data[0].end,
                },
            )
        },
    }
}

/// Parse a namespaced name.
pub fn parse_nsname<'a>(cursor: Frag<'a>) -> (r: Result<(VName, Frag<'a>), ParseError>)
    requires
        spec_parse_multiname(cursor@) matches Ok((names, tail)) ==> single_name(names)
            || tail.data.len() > 0,
    ensures
        match r {
            Ok((n, tail)) => spec_parse_nsname(cursor@) == Ok::<
                (Seq<Seq<char>>, FragView),
                ParseErrorView,
            >((n@, tail@)),
            Err(e) => spec_parse_nsname(cursor@) == Err::<(Seq<Seq<char>>, FragView), ParseErrorView>(
                e@,
            ),
        },
{
    let (names, tail) = parse_multiname(cursor)?;
    let single = names.len() == 1 && names[0].name.is_some();
    if single {
        let mut names = names;
        let ghost views = names@.map_values(|i: Import| i@);
        let imp = names.pop().unwrap();
        assert(imp@ == views[0]);
        let Import { name, path, range: _ } = imp;
        let n = name.unwrap();
        let mut segs: Vec<String> = Vec::new();
        segs.push(n);
        let single_seg = VName::new(segs).unwrap();
        let full = single_seg.prefix(path.0);
        proof {
            assert(full@ =~= views[0].path.push(views[0].name.unwrap()));
        }
        Ok((full, tail))
    } else {
        let range = Range { start: cursor.data[0].range.start, end: tail.data[0].range.end };
        Err(ParseError { kind: ParseErrorKind::ExpectedSingleName, range })
    }
}

/// The words that begin a declaration.
pub open spec fn is_member_word(n: Seq<char>) -> bool {
    n == "const"@ || n == "macro"@ || n == "module"@
}

/// Whether a comment is a documentation comment, between two bars.
pub open spec fn is_doc(c: Seq<char>) -> bool {
    c.len() >= 2 && c[0] == '|' && c.last() == '|'
}

/// A [ParseErrorKind::BadTokenInRegion] error on an entry.
pub open spec fn bad_token(e: EntryView, region: Seq<char>) -> ParseErrorView {
    err_at(ParseErrorKindView::BadTokenInRegion { lexeme: e.lexeme, region }, e)
}

/// An entry of an export list: a plain name is accepted, a glob or a name
/// with a path is refused.
pub open spec fn export_item(i: ImportView) -> Result<(Seq<char>, nat, nat), ParseErrorView> {
    match i.name {
        None => Err(ParseErrorView { kind: ParseErrorKindView::GlobExport, start: i.start, end: i.end }),
        Some(n) => if i.path.len() == 0 {
            Ok((n, i.start, i.end))
        } else {
            Err(
                ParseErrorView {
                    kind: ParseErrorKindView::NamespacedExport,
                    start: i.start,
                    end: i.end,
                },
            )
        },
    }
}

/// The export list from entry `k` on, or the first refused entry's error.
pub open spec fn export_from(v: Seq<ImportView>, k: int) -> Result<
    Seq<(Seq<char>, nat, nat)>,
    ParseErrorView,
>
    decreases v.len() - k,
{
    if k < 0 || k >= v.len() {
        Ok(Seq::empty())
    } else {
        match export_item(v[k]) {
            Err(e) => Err(e),
            Ok(x) => match export_from(v, k + 1) {
                Err(e) => Err(e),
                Ok(r) => Ok(seq![x] + r),
            },
        }
    }
}

/// The line parsers of a parsing context. They are tried on every line, in
/// their order, before the built-in forms; the first that answers decides
/// what the line is.
pub trait LineParsers {
    /// The answer of the first line parser that answers for `line`, or
    /// `None` where none does
    spec fn spec_answer(&self, line: FragView) -> Option<
        Result<Seq<SourceLineKindView>, ParseErrorView>,
    >;

    /// Try the line parsers on `line` in order
    fn answer(&self, line: Frag<'_>) -> (r: Option<Result<Vec<SourceLineKind>, ParseError>>)
        ensures
            match r {
                None => self.spec_answer(line@) is None,
                Some(Ok(v)) => self.spec_answer(line@) == Some(
                    Ok::<Seq<SourceLineKindView>, ParseErrorView>(
                        v@.map_values(|k: SourceLineKind| k@),
                    ),
                ),
                Some(Err(e)) => self.spec_answer(line@) == Some(
                    Err::<Seq<SourceLineKindView>, ParseErrorView>(e@),
                ),
            },
    ;
}

/// A context without line parsers: only the built-in forms apply.
pub struct NoLineParsers;

impl LineParsers for NoLineParsers {
    open spec fn spec_answer(&self, line: FragView) -> Option<
        Result<Seq<SourceLineKindView>, ParseErrorView>,
    > {
        None
    }

    fn answer(&self, line: Frag<'_>) -> (r: Option<Result<Vec<SourceLineKind>, ParseError>>) {
        None
    }
}

/// What [parse_line_with] gives for a line: the first line parser of `p`
/// that answers decides; where none does, the built-in forms apply.
pub open spec fn spec_parse_line_with<P: LineParsers>(p: P, l: FragView) -> Result<Seq<SourceLineKindView>, ParseErrorView>
    decreases l.data.len(), 1int, 1int,
{
    match p.spec_answer(l) {
        Some(r) => r,
        None => spec_builtin_line(p, l),
    }
}

/// The built-in forms of a line, which apply where no line parser of `p`
/// answers.
pub open spec fn spec_builtin_line<P: LineParsers>(p: P, l: FragView) -> Result<
    Seq<SourceLineKindView>,
    ParseErrorView,
>
    decreases l.data.len(), 1int, 0int,
{
    if l.data.len() == 0 {
        Err(eol_at(l.fallback))
    } else {
        let head = l.data[0];
        match head.lexeme {
            LexemeView::Comment(c) => if is_doc(c) {
                Ok(seq![SourceLineKindView::Comment(c.subrange(1, c.len() - 1))])
            } else {
                spec_parse_line_with(p, drop_head(l))
            },
            LexemeView::BR => spec_parse_line_with(p, drop_head(l)),
            LexemeView::Name(n) => if n == "export"@ {
                match spec_export_line_with(p, drop_head(l)) {
                    Err(e) => Err(e),
                    Ok(k) => Ok(seq![k]),
                }
            } else if is_member_word(n) {
                match spec_parse_member_with(p, l) {
                    Err(e) => Err(e),
                    Ok(m) => Ok(
                        seq![SourceLineKindView::Member(MemberView { exported: false, kind: m })],
                    ),
                }
            } else if n == "import"@ {
                match spec_parse_multiname(drop_head(l)) {
                    Err(e) => Err(e),
                    Ok((imports, cont)) => if cont.data.len() > 0 {
                        Err(err_at(ParseErrorKindView::ExpectedEOL, cont.data[0]))
                    } else {
                        Ok(seq![SourceLineKindView::Import(imports)])
                    },
                }
            } else {
                Err(bad_token(head, "start of line"@))
            },
            _ => Err(bad_token(head, "start of line"@)),
        }
    }
}

/// What [parse_export_line] gives for the rest of a line after `export`.
pub open spec fn spec_export_line_with<P: LineParsers>(p: P, c0: FragView) -> Result<SourceLineKindView, ParseErrorView>
    decreases c0.data.len(), 1int, 0int,
{
    let c = spec_trim(c0);
    proof {
        lemma_trim_len(c0);
    }
    if c.data.len() == 0 {
        Err(eol_at(c.fallback))
    } else {
        let head = c.data[0];
        match head.lexeme {
            LexemeView::NS => match spec_parse_multiname(drop_head(c)) {
                Err(e) => Err(e),
                Ok((names, cont)) => if cont.data.len() > 0 {
                    Err(err_at(ParseErrorKindView::ExpectedEOL, cont.data[0]))
                } else {
                    match export_from(names, 0) {
                        Err(e) => Err(e),
                        Ok(v) => Ok(SourceLineKindView::Export(v)),
                    }
                },
            },
            LexemeView::Name(n) => if is_member_word(n) {
                match spec_parse_member_with(p, c) {
                    Err(e) => Err(e),
                    Ok(m) => Ok(SourceLineKindView::Member(MemberView { exported: true, kind: m })),
                }
            } else {
                Err(bad_token(head, "exported line"@))
            },
            _ => Err(bad_token(head, "exported line"@)),
        }
    }
}

/// What [parse_member] gives for a declaration.
pub open spec fn spec_parse_member_with<P: LineParsers>(p: P, l: FragView) -> Result<MemberKindView, ParseErrorView>
    decreases l.data.len(), 0int, 0int,
{
    proof {
        lemma_trim_len(l);
    }
    match spec_pop(spec_trim(l)) {
        Err(e) => Err(e),
        Ok((tm, c)) => match tm.lexeme {
            LexemeView::Name(n) => if n == "const"@ {
                match spec_parse_const(c) {
                    Err(e) => Err(e),
                    Ok(k) => Ok(MemberKindView::Constant(k)),
                }
            } else if n == "macro"@ {
                match spec_parse_rule(c) {
                    Err(e) => Err(e),
                    Ok(k) => Ok(MemberKindView::Rule(k)),
                }
            } else if n == "module"@ {
                match spec_parse_module_with(p, c) {
                    Err(e) => Err(e),
                    Ok(k) => Ok(MemberKindView::Module(k)),
                }
            } else {
                Err(bad_token(tm, "member type"@))
            },
            _ => Err(bad_token(tm, "member type"@)),
        },
    }
}

/// What [parse_module] gives for the rest of a line after `module`.
pub open spec fn spec_parse_module_with<P: LineParsers>(p: P, c0: FragView) -> Result<ModuleBlockView, ParseErrorView>
    decreases c0.data.len(), 0int, 0int,
{
    proof {
        lemma_trim_len(c0);
    }
    match spec_pop(spec_trim(c0)) {
        Err(e) => Err(e),
        Ok((name_ent, c1)) => match spec_expect_name(name_ent) {
            Err(e) => Err(e),
            Ok(name) => {
                proof {
                    lemma_expect_block_len(c1, PType::Par);
                }
                match spec_expect_block(c1, PType::Par) {
                    Err(e) => Err(e),
                    Ok(body) => match spec_module_body_with(p, body) {
                        Err(e) => Err(e),
                        Ok(lines) => Ok(ModuleBlockView { name, body: lines }),
                    },
                }
            },
        },
    }
}

/// The lines of a module body from line `k` on, each kind with the range of
/// the line it came from.
pub open spec fn body_from_with<P: LineParsers>(p: P, f: FragView, lines: Seq<FragView>, k: int) -> Result<
    Seq<SourceLineView>,
    ParseErrorView,
>
    decreases f.data.len(), 2int, lines.len() - k,
{
    if k < 0 || k >= lines.len() || lines[k].data.len() > f.data.len() {
        Ok(Seq::empty())
    } else {
        match spec_parse_line_with(p, lines[k]) {
            Err(e) => Err(e),
            Ok(kinds) => match body_from_with(p, f, lines, k + 1) {
                Err(e) => Err(e),
                Ok(rest) => Ok(
                    kinds.map_values(
                        |kd: SourceLineKindView|
                            SourceLineView {
                                kind: kd,
                                start: spec_range(lines[k]).0,
                                end: spec_range(lines[k]).1,
                            },
                    ) + rest,
                ),
            },
        }
    }
}

/// What [parse_module_body] gives for a module.
pub open spec fn spec_module_body_with<P: LineParsers>(p: P, f: FragView) -> Result<Seq<SourceLineView>, ParseErrorView>
    decreases f.data.len(), 3int, 0int,
{
    body_from_with(p, f, spec_split_lines(f), 0)
}

/// What [parse_line] gives for a line.
pub open spec fn spec_parse_line(l: FragView) -> Result<Seq<SourceLineKindView>, ParseErrorView> {
    spec_parse_line_with(NoLineParsers, l)
}

/// What [parse_export_line] gives for the rest of a line after `export`.
pub open spec fn spec_export_line(c0: FragView) -> Result<SourceLineKindView, ParseErrorView> {
    spec_export_line_with(NoLineParsers, c0)
}

/// What [parse_member] gives for a declaration.
pub open spec fn spec_parse_member(l: FragView) -> Result<MemberKindView, ParseErrorView> {
    spec_parse_member_with(NoLineParsers, l)
}

/// What [parse_module] gives for the rest of a line after `module`.
pub open spec fn spec_parse_module(c0: FragView) -> Result<ModuleBlockView, ParseErrorView> {
    spec_parse_module_with(NoLineParsers, c0)
}

/// What [parse_module_body] gives for a module.
pub open spec fn spec_module_body(f: FragView) -> Result<Seq<SourceLineView>, ParseErrorView> {
    spec_module_body_with(NoLineParsers, f)
}

/// The lines of a module body from line `k` on.
pub open spec fn body_from(f: FragView, lines: Seq<FragView>, k: int) -> Result<
    Seq<SourceLineView>,
    ParseErrorView,
> {
    body_from_with(NoLineParsers, f, lines, k)
}

/// Whether a name begins a declaration.
fn member_word(n: &String) -> (r: bool)
    ensures
        r == is_member_word(n@),
{
    str_eq(n.as_str(), "const") || str_eq(n.as_str(), "macro") || str_eq(n.as_str(), "module")
}

fn bad_token_at(e: &Entry, region: &'static str) -> (r: ParseError)
    ensures
        r@ == bad_token(e@, region@),
{
    error_at(ParseErrorKind::BadTokenInRegion { lexeme: e.lexeme.clone(), region }, e)
}

fn export_names(names: &Vec<Import>) -> (r: Result<Vec<(String, Range<usize>)>, ParseError>)
    ensures
        match r {
            Ok(v) => export_from(names@.map_values(|i: Import| i@), 0) == Ok::<
                Seq<(Seq<char>, nat, nat)>,
                ParseErrorView,
            >(v@.map_values(|p: (String, Range<usize>)| export_view(p))),
            Err(e) => export_from(names@.map_values(|i: Import| i@), 0) == Err::<
                Seq<(Seq<char>, nat, nat)>,
                ParseErrorView,
            >(e@),
        },
{
    let ghost views = names@.map_values(|i: Import| i@);
    let mut out: Vec<(String, Range<usize>)> = Vec::new();
    let mut k: usize = 0;
    while k < names.len()
        invariant
            k <= names@.len(),
            views == names@.map_values(|i: Import| i@),
            export_from(views, 0) == match export_from(views, k as int) {
                Ok(rest) => Ok(out@.map_values(|p: (String, Range<usize>)| export_view(p)) + rest),
                Err(e) => Err::<Seq<(Seq<char>, nat, nat)>, ParseErrorView>(e),
            },
        decreases names@.len() - k,
    {
        let imp = &names[k];
        assert(imp@ == views[k as int]);
        let range = Range { start: imp.range.start, end: imp.range.end };
        match &imp.name {
            None => {
                return Err(ParseError { kind: ParseErrorKind::GlobExport, range });
            },
            Some(n) => {
                if imp.path.0.len() > 0 {
                    return Err(ParseError { kind: ParseErrorKind::NamespacedExport, range });
                }
                let ghost before = out@.map_values(|p: (String, Range<usize>)| export_view(p));
                let item = (n.clone(), range);
                out.push(item);
                proof {
                    assert(out@.map_values(|p: (String, Range<usize>)| export_view(p)) =~= before.push(
                        export_view(item),
                    ));
                    match export_from(views, k + 1) {
                        Ok(rest) => {
                            assert(before.push(export_view(item)) + rest =~= before + (seq![
                                export_view(item),
                            ] + rest));
                        },
                        Err(_) => {},
                    }
                }
            },
        }
        k = k + 1;
    }
    proof {
        assert(out@.map_values(|p: (String, Range<usize>)| export_view(p)) + Seq::empty() =~= out@.map_values(
            |p: (String, Range<usize>)| export_view(p),
        ));
    }
    Ok(out)
}

/// Parse a single, possibly exported entry, trying the line parsers of `p`
/// first
pub fn parse_line_with<P: LineParsers>(cursor: Frag<'_>, p: &P) -> (r: Result<Vec<SourceLineKind>, ParseError>)
    ensures
        match r {
            Ok(v) => spec_parse_line_with(*p, cursor@) == Ok::<Seq<SourceLineKindView>, ParseErrorView>(
                v@.map_values(|k: SourceLineKind| k@),
            ),
            Err(e) => spec_parse_line_with(*p, cursor@) == Err::<Seq<SourceLineKindView>, ParseErrorView>(
                e@,
            ),
        },
    decreases cursor@.data.len(), 1int, 1int,
{
    match p.answer(cursor) {
        Some(res) => res,
        None => builtin_line(cursor, p),
    }
}

/// The built-in forms of a line, for where no line parser answers
fn builtin_line<P: LineParsers>(cursor: Frag<'_>, p: &P) -> (r: Result<Vec<SourceLineKind>, ParseError>)
    ensures
        match r {
            Ok(v) => spec_builtin_line(*p, cursor@) == Ok::<Seq<SourceLineKindView>, ParseErrorView>(
                v@.map_values(|k: SourceLineKind| k@),
            ),
            Err(e) => spec_builtin_line(*p, cursor@) == Err::<Seq<SourceLineKindView>, ParseErrorView>(
                e@,
            ),
        },
    decreases cursor@.data.len(), 1int, 0int,
{
    let head = cursor.get(0)?;
    match &head.lexeme {
        Lexeme::Comment(cmt) => {
            let t = cmt.as_str();
            let n = t.unicode_len();
            if n >= 2 && t.get_char(0) == '|' && t.get_char(n - 1) == '|' {
                let inner = t.substring_char(1, n - 1).to_owned();
                let v = vec![SourceLineKind::Comment(inner)];
                assert(v@.map_values(|k: SourceLineKind| k@) =~= seq![
                    SourceLineKindView::Comment(cmt@.subrange(1, cmt@.len() - 1)),
                ]);
                Ok(v)
            } else {
                parse_line_with(cursor.step()?, p)
            }
        },
        Lexeme::BR => parse_line_with(cursor.step()?, p),
        Lexeme::Name(n) => {
            if str_eq(n.as_str(), "export") {
                let k = parse_export_line_with(cursor.step()?, p)?;
                let v = vec![k];
                assert(v@.map_values(|k: SourceLineKind| k@) =~= seq![k@]);
                Ok(v)
            } else if member_word(n) {
                let kind = parse_member_with(cursor, p)?;
                let v = vec![SourceLineKind::Member(Member { exported: false, kind })];
                assert(v@.map_values(|k: SourceLineKind| k@) =~= seq![
                    SourceLineKindView::Member(MemberView { exported: false, kind: kind@ }),
                ]);
                Ok(v)
            } else if str_eq(n.as_str(), "import") {
                let (imports, cont) = parse_multiname(cursor.step()?)?;
                cont.expect_empty()?;
                let ghost iv = imports@.map_values(|i: Import| i@);
                let v = vec![SourceLineKind::Import(imports)];
                assert(v@.map_values(|k: SourceLineKind| k@) =~= seq![
                    SourceLineKindView::Import(iv),
                ]);
                Ok(v)
            } else {
                Err(bad_token_at(head, "start of line"))
            }
        },
        _ => Err(bad_token_at(head, "start of line")),
    }
}

/// Parse the rest of a line after `export`: a list of names or a
/// declaration.
pub fn parse_export_line_with<P: LineParsers>(cursor: Frag<'_>, p: &P) -> (r: Result<SourceLineKind, ParseError>)
    ensures
        match r {
            Ok(k) => spec_export_line_with(*p, cursor@) == Ok::<SourceLineKindView, ParseErrorView>(k@),
            Err(e) => spec_export_line_with(*p, cursor@) == Err::<SourceLineKindView, ParseErrorView>(e@),
        },
    decreases cursor@.data.len(), 1int, 0int,
{
    let c = cursor.trim();
    let head = c.get(0)?;
    match &head.lexeme {
        Lexeme::NS => {
            let (names, cont) = parse_multiname(c.step()?)?;
            cont.expect_empty()?;
            let exported = export_names(&names)?;
            Ok(SourceLineKind::Export(exported))
        },
        Lexeme::Name(n) => {
            if member_word(n) {
                let kind = parse_member_with(c, p)?;
                Ok(SourceLineKind::Member(Member { exported: true, kind }))
            } else {
                Err(bad_token_at(head, "exported line"))
            }
        },
        _ => Err(bad_token_at(head, "exported line")),
    }
}

/// Parse a declaration: a constant, a macro rule or a submodule.
pub fn parse_member_with<P: LineParsers>(cursor: Frag<'_>, p: &P) -> (r: Result<MemberKind, ParseError>)
    ensures
        match r {
            Ok(k) => spec_parse_member_with(*p, cursor@) == Ok::<MemberKindView, ParseErrorView>(k@),
            Err(e) => spec_parse_member_with(*p, cursor@) == Err::<MemberKindView, ParseErrorView>(e@),
        },
    decreases cursor@.data.len(), 0int, 0int,
{
    let (typemark, rest) = cursor.trim().pop()?;
    match &typemark.lexeme {
        Lexeme::Name(n) => {
            if str_eq(n.as_str(), "const") {
                Ok(MemberKind::Constant(parse_const(rest)?))
            } else if str_eq(n.as_str(), "macro") {
                Ok(MemberKind::Rule(parse_rule(rest)?))
            } else if str_eq(n.as_str(), "module") {
                Ok(MemberKind::Module(parse_module_with(rest, p)?))
            } else {
                Err(bad_token_at(typemark, "member type"))
            }
        },
        _ => Err(bad_token_at(typemark, "member type")),
    }
}

/// Parse a submodule declaration
pub fn parse_module_with<P: LineParsers>(cursor: Frag<'_>, p: &P) -> (r: Result<ModuleBlock, ParseError>)
    ensures
        match r {
            Ok(m) => spec_parse_module_with(*p, cursor@) == Ok::<ModuleBlockView, ParseErrorView>(m@),
            Err(e) => spec_parse_module_with(*p, cursor@) == Err::<ModuleBlockView, ParseErrorView>(e@),
        },
    decreases cursor@.data.len(), 0int, 0int,
{
    let (name_ent, rest) = cursor.trim().pop()?;
    let name = expect_name(name_ent)?;
    let body = expect_block(rest, PType::Par)?;
    let lines = parse_module_body_with(body, p)?;
    Ok(ModuleBlock { name, body: lines })
}

/// Parse linebreak-separated entries
pub fn parse_module_body_with<P: LineParsers>(cursor: Frag<'_>, p: &P) -> (r: Result<Vec<SourceLine>, ParseError>)
    ensures
        match r {
            Ok(v) => spec_module_body_with(*p, cursor@) == Ok::<Seq<SourceLineView>, ParseErrorView>(
                lines_view(v@),
            ),
            Err(e) => spec_module_body_with(*p, cursor@) == Err::<Seq<SourceLineView>, ParseErrorView>(e@),
        },
    decreases cursor@.data.len(), 3int, 0int,
{
    let lines = split_lines(cursor);
    let ghost ls = lines@.map_values(|f: Frag| f@);
    let mut out: Vec<SourceLine> = Vec::new();
    let mut k: usize = 0;
    assert(lines_view(out@) =~= Seq::<SourceLineView>::empty());
    proof {
        match body_from_with(*p, cursor@, ls, 0) {
            Ok(rest) => {
                assert(Seq::<SourceLineView>::empty() + rest =~= rest);
            },
            Err(_) => {},
        }
    }
    while k < lines.len()
        invariant
            k <= lines@.len(),
            ls == lines@.map_values(|f: Frag| f@),
            ls == spec_split_lines(cursor@),
            forall|j: int| 0 <= j < lines@.len() ==> #[trigger] lines@[j]@.data.len() <= cursor@.data.len(),
            spec_module_body_with(*p, cursor@) == match body_from_with(*p, cursor@, ls, k as int) {
                Ok(rest) => Ok(lines_view(out@) + rest),
                Err(e) => Err::<Seq<SourceLineView>, ParseErrorView>(e),
            },
        decreases lines@.len() - k,
    {
        let l = lines[k];
        assert(l@ == ls[k as int]);
        let kinds = match parse_line_with(l, p) {
            Ok(v) => v,
            Err(e) => {
                return Err(e);
            },
        };
        let range = l.range();
        let ghost kv = kinds@.map_values(|x: SourceLineKind| x@);
        let ghost mk = |kd: SourceLineKindView|
            SourceLineView { kind: kd, start: spec_range(ls[k as int]).0, end: spec_range(ls[k as int]).1 };
        let ghost base = lines_view(out@);
        let mut rest_kinds = kinds;
        let ghost mut j: int = 0;
        while rest_kinds.len() > 0
            invariant
                0 <= j <= kv.len(),
                rest_kinds@.map_values(|x: SourceLineKind| x@) == kv.skip(j),
                lines_view(out@) == base + kv.take(j).map_values(mk),
                k < ls.len(),
                (range.start as nat, range.end as nat) == spec_range(ls[k as int]),
                forall|kd: SourceLineKindView|
                    #[trigger] mk(kd) == (SourceLineView {
                        kind: kd,
                        start: spec_range(ls[k as int]).0,
                        end: spec_range(ls[k as int]).1,
                    }),
            decreases rest_kinds@.len(),
        {
            let ghost before = rest_kinds@;
            let kind = rest_kinds.remove(0);
            proof {
                assert(before.map_values(|x: SourceLineKind| x@).len() == before.len());
                assert(before.map_values(|x: SourceLineKind| x@)[0] == before[0]@);
                assert(kv.skip(j)[0] == kv[j]);
                assert(kind@ == kv[j]);
                let rv = rest_kinds@.map_values(|x: SourceLineKind| x@);
                assert forall|i: int| 0 <= i < rv.len() implies #[trigger] rv[i] == kv.skip(j + 1)[i] by {
                    assert(rest_kinds@[i] == before[i + 1]);
                    assert(before.map_values(|x: SourceLineKind| x@)[i + 1] == before[i + 1]@);
                    assert(kv.skip(j)[i + 1] == kv[j + i + 1]);
                }
                assert(rest_kinds@.map_values(|x: SourceLineKind| x@) =~= kv.skip(j + 1));
            }
            let line = SourceLine { range: Range { start: range.start, end: range.end }, kind };
            let ghost prev = out@;
            out.push(line);
            proof {
                lemma_lines_push(prev, line);
                assert(mk(kv[j]) == SourceLineView {
                    kind: kind_view(line.kind),
                    start: line.range.start as nat,
                    end: line.range.end as nat,
                });
                assert(kv.take(j + 1).map_values(mk) =~= kv.take(j).map_values(mk).push(mk(kv[j])));
                assert((base + kv.take(j).map_values(mk)).push(mk(kv[j])) =~= base + kv.take(
                    j,
                ).map_values(mk).push(mk(kv[j])));
                j = j + 1;
            }
        }
        proof {
            assert(kv.skip(j).len() == 0);
            assert(kv.take(j) =~= kv);
            match body_from_with(*p, cursor@, ls, k + 1) {
                Ok(rest) => {
                    assert(base + kv.map_values(mk) + rest =~= base + (kv.map_values(mk) + rest));
                },
                Err(_) => {},
            }
        }
        k = k + 1;
    }
    proof {
        assert(lines_view(out@) + Seq::<SourceLineView>::empty() =~= lines_view(out@));
    }
    Ok(out)
}


/// Parse a single, possibly exported entry
pub fn parse_line(cursor: Frag<'_>) -> (r: Result<Vec<SourceLineKind>, ParseError>)
    ensures
        match r {
            Ok(v) => spec_parse_line(cursor@) == Ok::<Seq<SourceLineKindView>, ParseErrorView>(
                v@.map_values(|k: SourceLineKind| k@),
            ),
            Err(e) => spec_parse_line(cursor@) == Err::<Seq<SourceLineKindView>, ParseErrorView>(
                e@,
            ),
        },
{
    parse_line_with(cursor, &NoLineParsers)
}

/// Parse the rest of a line after `export`: a list of names or a
/// declaration.
pub fn parse_export_line(cursor: Frag<'_>) -> (r: Result<SourceLineKind, ParseError>)
    ensures
        match r {
            Ok(k) => spec_export_line(cursor@) == Ok::<SourceLineKindView, ParseErrorView>(k@),
            Err(e) => spec_export_line(cursor@) == Err::<SourceLineKindView, ParseErrorView>(e@),
        },
{
    parse_export_line_with(cursor, &NoLineParsers)
}

/// Parse a declaration: a constant, a macro rule or a submodule.
pub fn parse_member(cursor: Frag<'_>) -> (r: Result<MemberKind, ParseError>)
    ensures
        match r {
            Ok(k) => spec_parse_member(cursor@) == Ok::<MemberKindView, ParseErrorView>(k@),
            Err(e) => spec_parse_member(cursor@) == Err::<MemberKindView, ParseErrorView>(e@),
        },
{
    parse_member_with(cursor, &NoLineParsers)
}

/// Parse a submodule declaration
pub fn parse_module(cursor: Frag<'_>) -> (r: Result<ModuleBlock, ParseError>)
    ensures
        match r {
            Ok(m) => spec_parse_module(cursor@) == Ok::<ModuleBlockView, ParseErrorView>(m@),
            Err(e) => spec_parse_module(cursor@) == Err::<ModuleBlockView, ParseErrorView>(e@),
        },
{
    parse_module_with(cursor, &NoLineParsers)
}

/// Parse linebreak-separated entries
pub fn parse_module_body(cursor: Frag<'_>) -> (r: Result<Vec<SourceLine>, ParseError>)
    ensures
        match r {
            Ok(v) => spec_module_body(cursor@) == Ok::<Seq<SourceLineView>, ParseErrorView>(
                lines_view(v@),
            ),
            Err(e) => spec_module_body(cursor@) == Err::<Seq<SourceLineView>, ParseErrorView>(e@),
        },
{
    parse_module_body_with(cursor, &NoLineParsers)
}

/// A constant declared as `const name := v1 ... vk` with literals and
/// placeholders for a value is a member that is not exported, of that name,
/// whose value is the single expression `v1` where `k` is one, and the
/// round-bracketed sequence of all of them, spanning them, otherwise.
pub proof fn law_const_line(l: FragView)
    requires
        l.data.len() >= 4,
        l.data[0].lexeme == LexemeView::Name("const"@),
        l.data[1].lexeme is Name,
        l.data[2].lexeme == LexemeView::Walrus,
        forall|k: int| 3 <= k < l.data.len() ==> is_value_entry(#[trigger] l.data[k]),
    ensures
        ({
            let vals = l.data.skip(3);
            let value = if vals.len() == 1 {
                value_exprs(vals)[0]
            } else {
                ExprView {
                    value: ClauseView::S(PType::Par, value_exprs(vals)),
                    start: vals[0].start,
                    end: vals.last().end,
                }
            };
            spec_parse_line(l) == Ok::<Seq<SourceLineKindView>, ParseErrorView>(
                seq![
                    SourceLineKindView::Member(
                        MemberView {
                            exported: false,
                            kind: MemberKindView::Constant(
                                ConstantView { name: l.data[1].lexeme->Name_0, value },
                            ),
                        },
                    ),
                ],
            )
        }),
{
    reveal_strlit("const");
    reveal_strlit("export");
    reveal_strlit("macro");
    reveal_strlit("module");
    reveal_strlit("import");
    let d = l.data;
    let n = d.len() as int;
    let vals = d.skip(3);
    assert(is_value_entry(d[n - 1]));
    assert(d.last() == d[n - 1]);
    lemma_trim_plain(d);
    assert(spec_trim(l) == l);
    let c = FragView { fallback: d[0], data: d.skip(1) };
    assert(c.data[0] == d[1]);
    assert(c.data.last() == d[n - 1]);
    lemma_trim_plain(c.data);
    assert(spec_trim(c) == c);
    let c1 = FragView { fallback: d[1], data: d.skip(2) };
    assert(c.data.drop_first() =~= c1.data);
    assert(c1.data[0] == d[2]);
    assert(c1.data.last() == d[n - 1]);
    lemma_trim_plain(c1.data);
    assert(spec_trim(c1) == c1);
    let c2 = FragView { fallback: d[2], data: vals };
    assert(c1.data.drop_first() =~= vals);
    assert forall|k: int| 0 <= k < vals.len() implies is_value_entry(#[trigger] vals[k]) by {
        assert(vals[k] == d[k + 3]);
    }
    law_exprv_values(c2);
    let v = value_exprs(vals);
    assert(spec_vec_to_single(d[2], v) == Ok::<ExprView, ParseErrorView>(
        if vals.len() == 1 {
            v[0]
        } else {
            ExprView { value: ClauseView::S(PType::Par, v), start: vals[0].start, end: vals.last().end }
        },
    ));
    assert(spec_parse_const(c) == Ok::<ConstantView, ParseErrorView>(
        ConstantView {
            name: d[1].lexeme->Name_0,
            value: if vals.len() == 1 {
                v[0]
            } else {
                ExprView { value: ClauseView::S(PType::Par, v), start: vals[0].start, end: vals.last().end }
            },
        },
    ));
    let k = ConstantView {
        name: d[1].lexeme->Name_0,
        value: if vals.len() == 1 {
            v[0]
        } else {
            ExprView { value: ClauseView::S(PType::Par, v), start: vals[0].start, end: vals.last().end }
        },
    };
    assert("const"@.len() != "export"@.len());
    assert("const"@ != "export"@);
    assert(is_member_word("const"@));
    assert(spec_pop(spec_trim(l)) == Ok::<(EntryView, FragView), ParseErrorView>((d[0], c)));
    assert(spec_parse_member_with(NoLineParsers, l) == Ok::<MemberKindView, ParseErrorView>(
        MemberKindView::Constant(k),
    ));
    assert(spec_parse_line(l) == spec_builtin_line(NoLineParsers, l));
}

/// An import line `import p :: [ n1 ... nk ]` imports each of the names in
/// the brackets from `p`, in their order: one import line of exactly k
/// imports, the j-th named nj with the path `p`.
pub proof fn law_import_bracket_line(l: FragView)
    requires
        l.data.len() >= 5,
        l.data[0].lexeme == LexemeView::Name("import"@),
        l.data[1].lexeme is Name,
        l.data[1].lexeme->Name_0 != "*"@,
        l.data[1].lexeme->Name_0 != ","@,
        l.data[2].lexeme == LexemeView::NS,
        l.data[3].lexeme == LexemeView::LP(PType::Sqr),
        l.data.last().lexeme == LexemeView::RP(PType::Sqr),
        forall|j: int| 4 <= j < l.data.len() - 1 ==> (#[trigger] l.data[j]).lexeme is Name,
    ensures
        spec_parse_line(l) matches Ok(kinds) && kinds.len() == 1 && (kinds[0] matches SourceLineKindView::Import(
            imports,
        ) && imports.len() == l.data.len() - 5 && forall|j: int|
            0 <= j < imports.len() ==> #[trigger] imports[j] == (ImportView {
                name: Some(l.data[j + 4].lexeme->Name_0),
                path: seq![l.data[1].lexeme->Name_0],
                start: l.data[j + 4].start,
                end: l.data[j + 4].end,
            })),
{
    reveal_strlit("import");
    reveal_strlit("export");
    reveal_strlit("const");
    reveal_strlit("macro");
    reveal_strlit("module");
    reveal_strlit("*");
    reveal_strlit(",");
    let d = l.data;
    let f = drop_head(l);
    assert forall|j: int| 0 <= j < f.data.len() implies #[trigger] f.data[j] == d[j + 1] by {}
    assert(f.data.last() == d.last());
    assert forall|j: int| 3 <= j < f.data.len() - 1 implies (#[trigger] f.data[j]).lexeme is Name by {
        assert(f.data[j] == d[j + 1]);
    }
    assert("*"@ =~= seq!['*']);
    assert(","@ =~= seq![',']);
    law_bracket_names_under(f);
    assert("import"@[0] != "export"@[0]);
    assert("import"@ != "export"@);
    assert(!is_member_word("import"@)) by {
        assert("import"@.len() != "const"@.len());
        assert("import"@.len() != "macro"@.len());
        assert("import"@[0] != "module"@[0]);
    }
    assert(spec_parse_line(l) == spec_builtin_line(NoLineParsers, l));
}

proof fn lemma_flat_level(s: Seq<EntryView>, k: int)
    requires
        0 <= k <= s.len(),
        forall|j: int| 0 <= j < k ==> !((#[trigger] s[j]).lexeme is LP) && !(s[j].lexeme is RP),
    ensures
        paren_level(s, k) == 1,
    decreases k,
{
    if k > 0 {
        lemma_flat_level(s, k - 1);
    }
}

/// A macro rule `v1 ... =prio=> w1 ...` of literals and placeholders on
/// either side of its arrow reads the values before the arrow as its
/// pattern and those after it as its template, one expression each in their
/// order, with the arrow's priority.
pub proof fn law_rule_sides(f: FragView, i: int)
    requires
        0 <= i < f.data.len(),
        f.data[i].lexeme is Arrow,
        forall|k: int| 0 <= k < f.data.len() && k != i ==> is_value_entry(#[trigger] f.data[k]),
    ensures
        spec_parse_rule(f) == Ok::<RuleView, ParseErrorView>(
            RuleView {
                pattern: value_exprs(f.data.take(i)),
                prio: f.data[i].lexeme->Arrow_0,
                template: value_exprs(f.data.skip(i + 1)),
            },
        ),
{
    let d = f.data;
    let pred = |l: LexemeView| arrow_prio(l) is Some;
    assert forall|j: int| 0 <= j < i + 1 implies !((#[trigger] d[j]).lexeme is LP) && !(d[j].lexeme is RP) by {
        if j != i {
            assert(is_value_entry(d[j]));
        }
    }
    lemma_flat_level(d, i + 1);
    assert forall|j: int| 0 <= j < i && top_level(d, j) implies !pred(d[j].lexeme) by {
        assert(is_value_entry(d[j]));
    }
    lemma_first_top(d, 0, i, pred);
    let pf = FragView { fallback: f.fallback, data: d.take(i) };
    assert forall|k: int| 0 <= k < pf.data.len() implies is_value_entry(#[trigger] pf.data[k]) by {
        assert(pf.data[k] == d[k]);
    }
    law_exprv_values(pf);
    let tf = FragView { fallback: d[i], data: d.skip(i + 1) };
    assert forall|k: int| 0 <= k < tf.data.len() implies is_value_entry(#[trigger] tf.data[k]) by {
        assert(tf.data[k] == d[k + i + 1]);
    }
    law_exprv_values(tf);
}

/// A line that starts with a comment between two bars is a documentation
/// line of the text between the bars.
pub proof fn law_doc_line(l: FragView, c: Seq<char>)
    requires
        l.data.len() > 0,
        l.data[0].lexeme == LexemeView::Comment(c),
        c.len() >= 2,
        c[0] == '|',
        c[c.len() - 1] == '|',
    ensures
        spec_parse_line(l) == Ok::<Seq<SourceLineKindView>, ParseErrorView>(
            seq![SourceLineKindView::Comment(c.subrange(1, c.len() - 1))],
        ),
{
    assert(spec_parse_line(l) == spec_builtin_line(NoLineParsers, l));
}

proof fn lemma_export_from(v: Seq<ImportView>, i: int)
    requires
        0 <= i <= v.len(),
        forall|j: int| 0 <= j < v.len() ==> (#[trigger] v[j]).name is Some && v[j].path.len() == 0,
    ensures
        export_from(v, i) == Ok::<Seq<(Seq<char>, nat, nat)>, ParseErrorView>(
            Seq::new((v.len() - i) as nat, |x: int| (v[i + x].name->0, v[i + x].start, v[i + x].end)),
        ),
    decreases v.len() - i,
{
    if i < v.len() {
        assert(v[i].name is Some && v[i].path.len() == 0);
        lemma_export_from(v, i + 1);
        assert(seq![(v[i].name->0, v[i].start, v[i].end)] + Seq::new(
            (v.len() - (i + 1)) as nat,
            |x: int| (v[i + 1 + x].name->0, v[i + 1 + x].start, v[i + 1 + x].end),
        ) =~= Seq::new((v.len() - i) as nat, |x: int| (v[i + x].name->0, v[i + x].start, v[i + x].end)));
    } else {
        assert(Seq::new((v.len() - i) as nat, |x: int| (v[i + x].name->0, v[i + x].start, v[i + x].end))
            =~= Seq::<(Seq<char>, nat, nat)>::empty());
    }
}

/// An export line `export :: ( n1 , ... , nk )` exports each of the names,
/// in their order, each with the range of its name.
pub proof fn law_export_names(l: FragView, k: nat)
    requires
        l.data.len() >= 2,
        l.data[0].lexeme == LexemeView::Name("export"@),
        l.data[1].lexeme == LexemeView::NS,
        paren_list(l.data.skip(2), k),
    ensures
        spec_parse_line(l) == Ok::<Seq<SourceLineKindView>, ParseErrorView>(
            seq![
                SourceLineKindView::Export(
                    Seq::new(
                        k,
                        |j: int|
                            (
                                l.data[2 * j + 3].lexeme->Name_0,
                                l.data[2 * j + 3].start,
                                l.data[2 * j + 3].end,
                            ),
                    ),
                ),
            ],
        ),
{
    let d = l.data;
    let c = drop_head(l);
    let rest = d.skip(2);
    assert(c.data[0] == d[1]);
    assert(c.data.last() == d.last());
    assert(d.last() == rest[2 * k as int]);
    lemma_trim_plain(c.data);
    assert(spec_trim(c) == c);
    let f = drop_head(c);
    assert(f.data =~= rest);
    law_paren_names(f, k);
    let imports = spec_parse_multiname(f)->Ok_0.0;
    lemma_export_from(imports, 0);
    let want = Seq::new(
        k,
        |j: int| (d[2 * j + 3].lexeme->Name_0, d[2 * j + 3].start, d[2 * j + 3].end),
    );
    assert forall|j: int| 0 <= j < k implies #[trigger] rest[2 * j + 1] == d[2 * j + 3] by {}
    assert(Seq::new(
        (imports.len() - 0) as nat,
        |x: int| (imports[0 + x].name->0, imports[0 + x].start, imports[0 + x].end),
    ) =~= want);
    assert(spec_export_line_with(NoLineParsers, c) == Ok::<SourceLineKindView, ParseErrorView>(
        SourceLineKindView::Export(want),
    ));
    assert(spec_parse_line(l) == spec_builtin_line(NoLineParsers, l));
}

} // verus!
