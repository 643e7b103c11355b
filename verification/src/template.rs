//! Template strings: string literals with `${ ... }` holes for expressions,
//! which the lexer turns into a concatenation of the literal parts and the
//! converted values.

use std::ops::Range;
use vstd::prelude::*;
use vstd::string::StrSliceExecFns;

use crate::lex::{
    bp, entry_views, lemma_sub_bytes, lex_error, lex_input, lex_setup, lex_until, lex_until_exec,
    mk, LexError, LexErrorKind,
};
use crate::context::Reporter;
use crate::lexer::{Atom, AtomView, Entry, EntryView, LexRes, Lexeme, LexemeView, PType};
use crate::string::{law_plain_string, lemma_decode_err_pos, parse_string, spec_parse_string};
use crate::text::{byte_len, lemma_byte_len_encode};

verus! {

/// The tokens placed before an interpolated expression, all at byte `p`:
/// `++ std::string::convert (`, or `++ std::conv::to_string (` in a `$"`
/// string.
pub open spec fn open_insert(conv: bool, p: int) -> Seq<EntryView> {
    seq![
        mk(LexemeView::Name("++"@), p, p),
        mk(LexemeView::Name("std"@), p, p),
        mk(LexemeView::NS, p, p),
        mk(LexemeView::Name(if conv { "conv"@ } else { "string"@ }), p, p),
        mk(LexemeView::NS, p, p),
        mk(LexemeView::Name(if conv { "to_string"@ } else { "convert"@ }), p, p),
        mk(LexemeView::LP(PType::Par), p, p),
    ]
}

/// The tokens placed after an interpolated expression, at byte `p`: `) ++`.
pub open spec fn close_insert(p: int) -> Seq<EntryView> {
    seq![mk(LexemeView::RP(PType::Par), p, p), mk(LexemeView::Name("++"@), p, p)]
}

/// The literal part `s[b..k]` as a string token whose range ends at the byte
/// of character `t` and is as long as the raw text. An escape that cannot be
/// decoded is an error in a `$"` string (`conv`); in a plain one it is
/// reported and the part is empty.
pub open spec fn commit(s: Seq<char>, b: int, k: int, t: int, conv: bool) -> Option<
    Result<(EntryView, Seq<LexError>), LexError>,
> {
    let start = bp(s, t) - (bp(s, k) - bp(s, b));
    match spec_parse_string(s.subrange(b, k)) {
        None => None,
        Some(Ok(v)) => Some(
            Ok((mk(LexemeView::Atom(AtomView::Str(v)), start, bp(s, t)), Seq::empty())),
        ),
        Some(Err(e)) => {
            let err = lex_error(
                LexErrorKind::String(e.kind),
                bp(s, b) + e.pos,
                bp(s, b) + e.pos + 1,
            );
            if conv {
                Some(Err(err))
            } else {
                Some(
                    Ok(
                        (
                            mk(LexemeView::Atom(AtomView::Str(Seq::empty())), start, bp(s, t)),
                            seq![err],
                        ),
                    ),
                )
            }
        },
    }
}

/// Scan a template string from character `k`, whose pending literal part
/// started at `b`, after the tokens `parts` and the reports `reports`: the
/// tokens, the character after the closing quote and the reports. `start` is
/// where the literal began. `None` where the text holds something the lexer
/// does not accept.
pub open spec fn interp_from(
    s: Seq<char>,
    start: int,
    k: int,
    b: int,
    parts: Seq<EntryView>,
    reports: Seq<LexError>,
    conv: bool,
) -> Option<Result<(Seq<EntryView>, int, Seq<LexError>), LexError>>
    decreases s.len() - k,
{
    if k < 0 || k >= s.len() {
        Some(
            Err(
                lex_error(
                    if conv {
                        LexErrorKind::NoTStringEnd
                    } else {
                        LexErrorKind::NoStringEnd
                    },
                    bp(s, start),
                    bp(s, s.len() as int),
                ),
            ),
        )
    } else if s[k] == '"' {
        match commit(s, b, k, k, conv) {
            None => None,
            Some(Err(e)) => Some(Err(e)),
            Some(Ok((atom, rep))) => {
                let all = parts.push(atom).push(
                    mk(LexemeView::RP(PType::Par), bp(s, k + 1), bp(s, k + 1)),
                );
                let toks = if !conv && all.len() == 3 {
                    seq![all[1]]
                } else {
                    all
                };
                Some(Ok((toks, k + 1, reports + rep)))
            },
        }
    } else if s[k] == '$' && k + 1 < s.len() && s[k + 1] == '{' {
        match commit(s, b, k, k + 2, conv) {
            None => None,
            Some(Err(e)) => Some(Err(e)),
            Some(Ok((atom, rep))) => match lex_until(s, k + 2, Seq::empty(), 0, k) {
                None => None,
                Some(Err(e)) => Some(Err(e)),
                Some(Ok((inner, e))) => if k + 2 <= e < s.len() {
                    interp_from(
                        s,
                        start,
                        e + 1,
                        e + 1,
                        parts.push(atom) + open_insert(conv, bp(s, k + 2)) + inner + close_insert(
                            bp(s, e + 1),
                        ),
                        reports + rep,
                        conv,
                    )
                } else {
                    None
                },
            },
        }
    } else if s[k] == '\\' && k + 1 < s.len() {
        interp_from(s, start, k + 2, b, parts, reports, conv)
    } else {
        interp_from(s, start, k + 1, b, parts, reports, conv)
    }
}

/// The length of the opening of a template string: `"` or `$"`.
pub open spec fn prefix_len(conv: bool) -> int {
    if conv {
        2
    } else {
        1
    }
}

/// Whether `s` starts a template string.
pub open spec fn starts_template(s: Seq<char>, conv: bool) -> bool {
    if conv {
        s.len() >= 2 && s[0] == '$' && s[1] == '"'
    } else {
        s.len() >= 1 && s[0] == '"'
    }
}

/// What the template string at the start of `s` lexes to: its tokens, the
/// character after it and the reported errors.
pub open spec fn spec_template(s: Seq<char>, conv: bool) -> Option<
    Result<(Seq<EntryView>, int, Seq<LexError>), LexError>,
> {
    let p = prefix_len(conv);
    interp_from(
        s,
        0,
        p,
        p,
        seq![mk(LexemeView::LP(PType::Par), bp(s, p), bp(s, p))],
        Seq::empty(),
        conv,
    )
}

fn name_at(text: &str, p: usize) -> (r: Entry)
    ensures
        r@ == mk(LexemeView::Name(text@), p as int, p as int),
{
    Entry { lexeme: Lexeme::Name(text.to_owned()), range: Range { start: p, end: p } }
}

fn push_open_insert(parts: &mut Vec<Entry>, conv: bool, p: usize)
    ensures
        entry_views(final(parts)@) == entry_views(old(parts)@) + open_insert(conv, p as int),
{
    let ghost before = entry_views(parts@);
    parts.push(name_at("++", p));
    parts.push(name_at("std", p));
    parts.push(Entry { lexeme: Lexeme::NS, range: Range { start: p, end: p } });
    if conv {
        parts.push(name_at("conv", p));
    } else {
        parts.push(name_at("string", p));
    }
    parts.push(Entry { lexeme: Lexeme::NS, range: Range { start: p, end: p } });
    if conv {
        parts.push(name_at("to_string", p));
    } else {
        parts.push(name_at("convert", p));
    }
    parts.push(Entry { lexeme: Lexeme::LP(PType::Par), range: Range { start: p, end: p } });
    assert(entry_views(parts@) =~= before + open_insert(conv, p as int));
}

fn push_close_insert(parts: &mut Vec<Entry>, p: usize)
    ensures
        entry_views(final(parts)@) == entry_views(old(parts)@) + close_insert(p as int),
{
    let ghost before = entry_views(parts@);
    parts.push(Entry { lexeme: Lexeme::RP(PType::Par), range: Range { start: p, end: p } });
    parts.push(name_at("++", p));
    assert(entry_views(parts@) =~= before + close_insert(p as int));
}

fn commit_exec(data: &str, s: &Vec<char>, offs: &Vec<usize>, b: usize, k: usize, t: usize, conv: bool) -> (r:
    Result<(Entry, Vec<LexError>), LexError>)
    requires
        lex_input(data, s@, offs@),
        b <= k <= t <= s@.len(),
        commit(s@, b as int, k as int, t as int, conv) is Some,
    ensures
        match r {
            Ok((e, reps)) => commit(s@, b as int, k as int, t as int, conv) == Some(
                Ok::<(EntryView, Seq<LexError>), LexError>((e@, reps@)),
            ) && (conv ==> reps@.len() == 0),
            Err(err) => commit(s@, b as int, k as int, t as int, conv) == Some(
                Err::<(EntryView, Seq<LexError>), LexError>(err),
            ),
        },
{
    let body = data.substring_char(b, k);
    proof {
        lemma_sub_bytes(s@, b as int, k as int);
        lemma_sub_bytes(s@, k as int, t as int);
        lemma_byte_len_encode(body@);
        lemma_decode_err_pos(body@, 0, Seq::empty());
    }
    let start = offs[t] - (offs[k] - offs[b]);
    let range = Range { start, end: offs[t] };
    match parse_string(body) {
        Ok(v) => {
            let reps: Vec<LexError> = Vec::new();
            assert(reps@ =~= Seq::<LexError>::empty());
            Ok((Entry { lexeme: Lexeme::Atom(Atom::Str(v)), range }, reps))
        },
        Err(e) => {
            let err = LexError {
                kind: LexErrorKind::String(e.kind),
                range: Range { start: offs[b] + e.pos, end: offs[b] + e.pos + 1 },
            };
            if conv {
                Err(err)
            } else {
                let empty = String::new();
                let reps = vec![err];
                assert(reps@ =~= seq![err]);
                Ok((Entry { lexeme: Lexeme::Atom(Atom::Str(empty)), range }, reps))
            }
        },
    }
}

fn interp_exec(data: &str, s: &Vec<char>, offs: &Vec<usize>, conv: bool) -> (r: Result<
    (Vec<Entry>, usize, Vec<LexError>),
    LexError,
>)
    requires
        lex_input(data, s@, offs@),
        starts_template(s@, conv),
        spec_template(s@, conv) is Some,
    ensures
        match r {
            Ok((t, k, reps)) => spec_template(s@, conv) == Some(
                Ok::<(Seq<EntryView>, int, Seq<LexError>), LexError>(
                    (entry_views(t@), k as int, reps@),
                ),
            ) && k <= s@.len() && (conv ==> reps@.len() == 0),
            Err(err) => spec_template(s@, conv) == Some(
                Err::<(Seq<EntryView>, int, Seq<LexError>), LexError>(err),
            ),
        },
{
    let n = s.len();
    let p: usize = if conv {
        2
    } else {
        1
    };
    let ghost goal = spec_template(s@, conv);
    let mut parts: Vec<Entry> = Vec::new();
    parts.push(Entry { lexeme: Lexeme::LP(PType::Par), range: Range { start: offs[p], end: offs[p] } });
    assert(entry_views(parts@) =~= seq![mk(LexemeView::LP(PType::Par), bp(s@, p as int), bp(s@, p as int))]);
    let mut reports: Vec<LexError> = Vec::new();
    assert(reports@ =~= Seq::<LexError>::empty());
    let mut k = p;
    let mut b = p;
    loop
        invariant
            b <= k <= n,
            n == s@.len(),
            lex_input(data, s@, offs@),
            interp_from(s@, 0, k as int, b as int, entry_views(parts@), reports@, conv) == goal,
            goal == spec_template(s@, conv),
            goal is Some,
            conv ==> reports@.len() == 0,
        decreases n - k,
    {
        if k >= n {
            let kind = if conv {
                LexErrorKind::NoTStringEnd
            } else {
                LexErrorKind::NoStringEnd
            };
            return Err(LexError { kind, range: Range { start: offs[0], end: offs[n] } });
        }
        let c = s[k];
        if c == '"' {
            let (atom, rep) = commit_exec(data, s, offs, b, k, k, conv)?;
            let ghost before = entry_views(parts@);
            parts.push(atom);
            parts.push(Entry { lexeme: Lexeme::RP(PType::Par), range: Range { start: offs[k + 1], end: offs[k + 1] } });
            let ghost all = before.push(atom@).push(
                mk(LexemeView::RP(PType::Par), bp(s@, k + 1), bp(s@, k + 1)),
            );
            assert(entry_views(parts@) =~= all);
            let mut rep = rep;
            reports.append(&mut rep);
            if !conv && parts.len() == 3 {
                let mut only: Vec<Entry> = Vec::new();
                let mut parts = parts;
                let second = parts.remove(1);
                only.push(second);
                assert(entry_views(only@) =~= seq![all[1]]);
                return Ok((only, k + 1, reports));
            }
            return Ok((parts, k + 1, reports));
        }
        if c == '$' && k + 1 < n && s[k + 1] == '{' {
            let (atom, rep) = commit_exec(data, s, offs, b, k, k + 2, conv)?;
            let (inner, e) = lex_until_exec(data, s, offs, k + 2, k)?;
            let ghost before = entry_views(parts@);
            let ghost old_reports = reports@;
            parts.push(atom);
            assert(entry_views(parts@) =~= before.push(atom@));
            push_open_insert(&mut parts, conv, offs[k + 2]);
            let ghost mid = parts@;
            let ghost inner_views = entry_views(inner@);
            let mut inner = inner;
            parts.append(&mut inner);
            assert(entry_views(parts@) =~= entry_views(mid) + inner_views);
            push_close_insert(&mut parts, offs[e + 1]);
            let mut rep = rep;
            let ghost rep_v = rep@;
            reports.append(&mut rep);
            assert(entry_views(parts@) == before.push(atom@) + open_insert(conv, bp(s@, k + 2)) + inner_views
                + close_insert(bp(s@, e + 1)));
            assert(reports@ == old_reports + rep_v);
            assert(interp_from(s@, 0, k as int, b as int, before, old_reports, conv) == interp_from(
                s@,
                0,
                e + 1,
                e + 1,
                entry_views(parts@),
                reports@,
                conv,
            ));
            k = e + 1;
            b = e + 1;
        } else if c == '\\' && k + 1 < n {
            k = k + 2;
        } else {
            k = k + 1;
        }
    }
}

proof fn lemma_scan_without_holes(
    s: Seq<char>,
    k: int,
    b: int,
    parts: Seq<EntryView>,
    reports: Seq<LexError>,
)
    ensures
        interp_from(s, 0, k, b, parts, reports, false) matches Some(Ok((toks, e, r))) ==> e > k && (
        (forall|i: int| k <= i < e ==> s[i] != '$') && parts.len() == 1 ==> toks.len() == 1
            && toks[0].lexeme is Atom),
    decreases s.len() - k,
{
    if k < 0 || k >= s.len() {
    } else if s[k] == '"' {
    } else if s[k] == '$' && k + 1 < s.len() && s[k + 1] == '{' {
        match commit(s, b, k, k + 2, false) {
            Some(Ok((atom, rep))) => match lex_until(s, k + 2, Seq::empty(), 0, k) {
                Some(Ok((inner, e))) => if k + 2 <= e < s.len() {
                    lemma_scan_without_holes(
                        s,
                        e + 1,
                        e + 1,
                        parts.push(atom) + open_insert(false, bp(s, k + 2)) + inner + close_insert(
                            bp(s, e + 1),
                        ),
                        reports + rep,
                    );
                },
                _ => {},
            },
            _ => {},
        }
    } else if s[k] == '\\' && k + 1 < s.len() {
        lemma_scan_without_holes(s, k + 2, b, parts, reports);
    } else {
        lemma_scan_without_holes(s, k + 1, b, parts, reports);
    }
}

/// A string literal without `$` in it lexes to a single string atom rather
/// than a concatenation.
pub proof fn law_literal_without_holes(s: Seq<char>)
    requires
        starts_template(s, false),
        spec_template(s, false) matches Some(Ok((_, e, _))) && forall|i: int| 1 <= i < e ==> s[i] != '$',
    ensures
        spec_template(s, false) matches Some(Ok((toks, _, _))) && toks.len() == 1 && toks[0].lexeme is Atom,
{
    lemma_scan_without_holes(
        s,
        1,
        1,
        seq![mk(LexemeView::LP(PType::Par), bp(s, 1), bp(s, 1))],
        Seq::empty(),
    );
}

proof fn lemma_interp_plain(
    s: Seq<char>,
    k: int,
    end: int,
    b: int,
    parts: Seq<EntryView>,
    reports: Seq<LexError>,
    conv: bool,
)
    requires
        0 <= k <= end < s.len(),
        forall|i: int| k <= i < end ==> #[trigger] s[i] != '"' && s[i] != '$' && s[i] != '\\',
    ensures
        interp_from(s, 0, k, b, parts, reports, conv) == interp_from(s, 0, end, b, parts, reports, conv),
    decreases end - k,
{
    if k < end {
        assert(s[k] != '"' && s[k] != '$' && s[k] != '\\');
        lemma_interp_plain(s, k + 1, end, b, parts, reports, conv);
    }
}

/// A template string without holes or escapes stands for its own text: `"c"`
/// lexes to the single string `c`, and `$"c"` to the string `c` in
/// parentheses, both ending after the closing quote with nothing reported.
pub proof fn law_template_plain(c: Seq<char>)
    requires
        forall|i: int| 0 <= i < c.len() ==> #[trigger] c[i] != '"' && c[i] != '$' && c[i] != '\\',
    ensures
        spec_template(seq!['"'] + c + seq!['"'], false) matches Some(Ok((toks, e, r))) && toks.len() == 1
            && toks[0].lexeme == LexemeView::Atom(AtomView::Str(c)) && e == c.len() + 2 && r.len() == 0,
        spec_template(seq!['$', '"'] + c + seq!['"'], true) matches Some(Ok((toks, e, r))) && toks.len()
            == 3 && toks[0].lexeme == LexemeView::LP(PType::Par) && toks[1].lexeme == LexemeView::Atom(
            AtomView::Str(c),
        ) && toks[2].lexeme == LexemeView::RP(PType::Par) && e == c.len() + 3 && r.len() == 0,
{
    law_plain_string(c);
    let s1 = seq!['"'] + c + seq!['"'];
    let n1: int = c.len() + 1int;
    assert forall|i: int| 1 <= i < n1 implies #[trigger] s1[i] != '"' && s1[i] != '$' && s1[i] != '\\' by {
        assert(s1[i] == c[i - 1]);
    }
    lemma_interp_plain(
        s1,
        1,
        n1,
        1,
        seq![mk(LexemeView::LP(PType::Par), bp(s1, 1), bp(s1, 1))],
        Seq::empty(),
        false,
    );
    assert(s1[n1] == '"');
    assert(s1.subrange(1, n1) =~= c);
    let s2 = seq!['$', '"'] + c + seq!['"'];
    let n2: int = c.len() + 2int;
    assert forall|i: int| 2 <= i < n2 implies #[trigger] s2[i] != '"' && s2[i] != '$' && s2[i] != '\\' by {
        assert(s2[i] == c[i - 2]);
    }
    lemma_interp_plain(
        s2,
        2,
        n2,
        2,
        seq![mk(LexemeView::LP(PType::Par), bp(s2, 2), bp(s2, 2))],
        Seq::empty(),
        true,
    );
    assert(s2[n2] == '"');
    assert(s2.subrange(2, n2) =~= c);
}

/// Lexer for a string literal `"..."` that supports interpolation with
/// `${ ... }`; a literal without holes lexes to a single string atom.
pub struct StringLexer;

impl StringLexer {
    /// Lex the string literal at the start of `tail`, if it starts with one.
    /// Escapes that cannot be decoded do not stop the lexer: they are
    /// reported, and the part they stand in becomes empty.
    pub fn lex<'a>(&self, reporter: &mut Reporter, tail: &'a str) -> (r: Option<Result<LexRes<'a>, LexError>>)
        requires
            starts_template(tail@, false) ==> spec_template(tail@, false) is Some,
        ensures
            !starts_template(tail@, false) ==> r is None && final(reporter).spec_errors()
                == old(reporter).spec_errors(),
            starts_template(tail@, false) ==> match r {
                Some(Ok(res)) => exists|reps: Seq<LexError>|
                    #![trigger old(reporter).spec_errors() + reps]
                    spec_template(tail@, false) == Some(
                        Ok::<(Seq<EntryView>, int, Seq<LexError>), LexError>(
                            (entry_views(res.tokens@), tail@.len() - res.tail@.len(), reps),
                        ),
                    ) && final(reporter).spec_errors() == old(reporter).spec_errors() + reps
                        && res.tail@ == tail@.skip(tail@.len() - res.tail@.len()),
                Some(Err(e)) => spec_template(tail@, false) == Some(
                    Err::<(Seq<EntryView>, int, Seq<LexError>), LexError>(e),
                ) && final(reporter).spec_errors() == old(reporter).spec_errors(),
                None => false,
            },
    {
        let (s, offs) = lex_setup(tail);
        if !(s.len() >= 1 && s[0] == '"') {
            return None;
        }
        match interp_exec(tail, &s, &offs, false) {
            Ok((tokens, k, reps)) => {
                let ghost before = reporter.spec_errors();
                let mut i: usize = 0;
                while i < reps.len()
                    invariant
                        i <= reps@.len(),
                        reporter.spec_errors() == before + reps@.take(i as int),
                    decreases reps@.len() - i,
                {
                    let e = LexError {
                        kind: reps[i].kind,
                        range: Range { start: reps[i].range.start, end: reps[i].range.end },
                    };
                    reporter.report(e);
                    assert(reps@.take(i + 1) =~= reps@.take(i as int).push(reps@[i as int]));
                    i = i + 1;
                }
                assert(reps@.take(reps@.len() as int) =~= reps@);
                let rest = tail.substring_char(k, s.len());
                assert(rest@ =~= tail@.skip(k as int));
                Some(Ok(LexRes { tail: rest, tokens }))
            },
            Err(e) => Some(Err(e)),
        }
    }
}

/// Lexer for a `$"..."` string literal whose `${ ... }` holes are converted
/// with `std::conv::to_string`.
pub struct TStringLexer;

impl TStringLexer {
    /// Lex the `$"` literal at the start of `tail`, if it starts with one.
    pub fn lex<'a>(&self, tail: &'a str) -> (r: Option<Result<LexRes<'a>, LexError>>)
        requires
            starts_template(tail@, true) ==> spec_template(tail@, true) is Some,
        ensures
            !starts_template(tail@, true) ==> r is None,
            starts_template(tail@, true) ==> match r {
                Some(Ok(res)) => spec_template(tail@, true) == Some(
                    Ok::<(Seq<EntryView>, int, Seq<LexError>), LexError>(
                        (entry_views(res.tokens@), tail@.len() - res.tail@.len(), Seq::empty()),
                    ),
                ) && res.tail@ == tail@.skip(tail@.len() - res.tail@.len()),
                Some(Err(e)) => spec_template(tail@, true) == Some(
                    Err::<(Seq<EntryView>, int, Seq<LexError>), LexError>(e),
                ),
                None => false,
            },
    {
        let (s, offs) = lex_setup(tail);
        if !(s.len() >= 2 && s[0] == '$' && s[1] == '"') {
            return None;
        }
        match interp_exec(tail, &s, &offs, true) {
            Ok((tokens, k, reps)) => {
                assert(reps@ =~= Seq::<LexError>::empty());
                let rest = tail.substring_char(k, s.len());
                assert(rest@ =~= tail@.skip(k as int));
                Some(Ok(LexRes { tail: rest, tokens }))
            },
            Err(e) => Some(Err(e)),
        }
    }
}

} // verus!
