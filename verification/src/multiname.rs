//! Parse the tree-like name sets used to represent imports

use std::ops::Range;
use vstd::prelude::*;

use crate::errors::{err_at, error_at, ParseError, ParseErrorKind, ParseErrorKindView, ParseErrorView};
use crate::frag::{lemma_trim_plain, spec_pop, spec_step, spec_trim, trim_seq, Frag, FragView};
use crate::lexer::{Entry, EntryView, Lexeme, LexemeView, PType};
use crate::name::{seg_views, VPath};
use crate::parsed::{Import, ImportView};
use crate::text::is_char_str;

verus! {

/// A branch of a name tree: the names along it, and whether it ends in a glob
pub struct SubresultView {
    pub glob: bool,
    pub deque: Seq<Seq<char>>,
    pub start: nat,
    pub end: nat,
}

struct Subresult {
    glob: bool,
    deque: Vec<String>,
    range: Range<usize>,
}

impl View for Subresult {
    type V = SubresultView;

    closed spec fn view(&self) -> SubresultView {
        SubresultView {
            glob: self.glob,
            deque: seg_views(self.deque@),
            start: self.range.start as nat,
            end: self.range.end as nat,
        }
    }
}

spec fn sub_views(v: Seq<Subresult>) -> Seq<SubresultView> {
    v.map_values(|s: Subresult| s@)
}

/// The text `,`
pub open spec fn comma() -> Seq<char> {
    seq![',']
}

/// The text `*`
pub open spec fn star() -> Seq<char> {
    seq!['*']
}

pub open spec fn glob_at(e: EntryView) -> SubresultView {
    SubresultView { glob: true, deque: Seq::empty(), start: e.start, end: e.end }
}

pub open spec fn named_at(n: Seq<char>, e: EntryView) -> SubresultView {
    SubresultView { glob: false, deque: seq![n], start: e.start, end: e.end }
}

pub open spec fn push_front_all(v: Seq<SubresultView>, n: Seq<char>) -> Seq<SubresultView> {
    v.map_values(|s: SubresultView| SubresultView { deque: seq![n] + s.deque, ..s })
}

pub open spec fn expected_err(
    expected: Seq<LexemeView>,
    or_name: bool,
    found: LexemeView,
    at: EntryView,
) -> ParseErrorView {
    err_at(ParseErrorKindView::Expected { expected, or_name, found }, at)
}

/// Whether the fragment's first entry is `::`.
pub open spec fn starts_with_ns(f: FragView) -> bool {
    f.data.len() > 0 && f.data[0].lexeme is NS
}

/// A name tree: `name`, `name :: tree`, `( tree , tree ... )`, `*` or
/// `[ name name ... ]`.
pub open spec fn spec_multiname_rec(f: FragView) -> Result<(Seq<SubresultView>, FragView), ParseErrorView>
    decreases f.data.len(), 0int,
{
    match spec_pop(spec_trim(f)) {
        Err(e) => Err(e),
        Ok((head, cur)) => if cur.data.len() >= f.data.len() {
            Err(err_at(ParseErrorKindView::ExpectedEOL, head))
        } else {
            match head.lexeme {
                LexemeView::LP(PType::Par) => spec_multiname_branch(cur),
                LexemeView::LP(PType::Sqr) => spec_multiname_sqr(cur, head, Seq::empty()),
                LexemeView::Name(n) => if n == star() {
                    Ok((seq![glob_at(head)], cur))
                } else if n == comma() {
                    Err(expected_err(seq![LexemeView::LP(PType::Par)], true, head.lexeme, head))
                } else {
                    let c2 = spec_trim(cur);
                    if starts_with_ns(c2) {
                        let c3 = FragView { fallback: c2.data[0], data: c2.data.drop_first() };
                        if c3.data.len() < f.data.len() {
                            match spec_multiname_rec(c3) {
                                Ok((out, c4)) => Ok((push_front_all(out, n), c4)),
                                Err(e) => Err(e),
                            }
                        } else {
                            Err(err_at(ParseErrorKindView::ExpectedEOL, head))
                        }
                    } else {
                        Ok((seq![named_at(n, head)], cur))
                    }
                },
                _ => Err(expected_err(seq![LexemeView::LP(PType::Par)], true, head.lexeme, head)),
            }
        },
    }
}

/// The names of a `[ ... ]` group after `names`, up to the closing bracket.
pub open spec fn spec_multiname_sqr(f: FragView, head: EntryView, names: Seq<SubresultView>) -> Result<
    (Seq<SubresultView>, FragView),
    ParseErrorView,
>
    decreases f.data.len(), 0int,
{
    match spec_pop(spec_trim(f)) {
        Err(e) => Err(e),
        Ok((ent, tail)) => if tail.data.len() >= f.data.len() {
            Err(err_at(ParseErrorKindView::ExpectedEOL, ent))
        } else {
            match ent.lexeme {
                LexemeView::Name(n) => spec_multiname_sqr(tail, head, names.push(named_at(n, ent))),
                LexemeView::RP(PType::Sqr) => Ok((names, tail)),
                _ => Err(expected_err(seq![LexemeView::RP(PType::Sqr)], true, head.lexeme, ent)),
            }
        },
    }
}

/// The trees of a `( ... )` group, separated by `,`, up to the closing paren.
pub open spec fn spec_multiname_branch(f: FragView) -> Result<(Seq<SubresultView>, FragView), ParseErrorView>
    decreases f.data.len(), 1int,
{
    match spec_multiname_rec(f) {
        Err(e) => Err(e),
        Ok((subs, c)) => match spec_pop(spec_trim(c)) {
            Err(e) => Err(e),
            Ok((ent, c2)) => match ent.lexeme {
                LexemeView::RP(PType::Par) => Ok((subs, c2)),
                LexemeView::Name(n) => if n == comma() {
                    if c2.data.len() < f.data.len() {
                        match spec_multiname_branch(c2) {
                            Ok((t, cont)) => Ok((subs + t, cont)),
                            Err(e) => Err(e),
                        }
                    } else {
                        Err(err_at(ParseErrorKindView::ExpectedEOL, ent))
                    }
                } else {
                    Err(
                        expected_err(
                            seq![LexemeView::Name(comma()), LexemeView::RP(PType::Par)],
                            false,
                            ent.lexeme,
                            ent,
                        ),
                    )
                },
                _ => Err(
                    expected_err(
                        seq![LexemeView::Name(comma()), LexemeView::RP(PType::Par)],
                        false,
                        ent.lexeme,
                        ent,
                    ),
                ),
            },
        },
    }
}

/// The import a branch of a name tree describes.
pub open spec fn finalize(s: SubresultView) -> ImportView {
    if s.glob {
        ImportView { name: None, path: s.deque, start: s.start, end: s.end }
    } else {
        ImportView { name: Some(s.deque.last()), path: s.deque.drop_last(), start: s.start, end: s.end }
    }
}

/// What [parse_multiname] gives for a fragment.
pub open spec fn spec_parse_multiname(f: FragView) -> Result<(Seq<ImportView>, FragView), ParseErrorView> {
    match spec_multiname_rec(f) {
        Ok((subs, c)) => Ok((subs.map_values(|s: SubresultView| finalize(s)), c)),
        Err(e) => Err(e),
    }
}

fn named(n: &String, e: &Entry) -> (r: Subresult)
    ensures
        r@ == named_at(n@, e@),
{
    let mut d: Vec<String> = Vec::new();
    d.push(n.clone());
    let r = Subresult { glob: false, deque: d, range: Range { start: e.range.start, end: e.range.end } };
    assert(r@.deque =~= seq![n@]);
    r
}

fn push_front_each(v: Vec<Subresult>, n: &String) -> (r: Vec<Subresult>)
    ensures
        sub_views(r@) == push_front_all(sub_views(v@), n@),
{
    let mut out: Vec<Subresult> = Vec::new();
    let mut i: usize = 0;
    while i < v.len()
        invariant
            i <= v@.len(),
            sub_views(out@) == push_front_all(sub_views(v@), n@).take(i as int),
        decreases v@.len() - i,
    {
        let s = &v[i];
        let mut d: Vec<String> = Vec::new();
        d.push(n.clone());
        let mut k: usize = 0;
        while k < s.deque.len()
            invariant
                k <= s.deque@.len(),
                seg_views(d@) == seq![n@] + seg_views(s.deque@).take(k as int),
            decreases s.deque@.len() - k,
        {
            let c = s.deque[k].clone();
            let ghost before = d@;
            d.push(c);
            assert(seg_views(d@) =~= seg_views(before).push(c@));
            assert(seg_views(s.deque@).take(k + 1) =~= seg_views(s.deque@).take(k as int).push(
                s.deque@[k as int]@,
            ));
            k = k + 1;
        }
        assert(seg_views(s.deque@).take(s.deque@.len() as int) =~= seg_views(s.deque@));
        let ns = Subresult { glob: s.glob, deque: d, range: Range { start: s.range.start, end: s.range.end } };
        let ghost before = out@;
        out.push(ns);
        assert(sub_views(out@) =~= sub_views(before).push(ns@));
        assert(sub_views(out@) =~= push_front_all(sub_views(v@), n@).take(i + 1));
        i = i + 1;
    }
    assert(push_front_all(sub_views(v@), n@).take(v@.len() as int) =~= push_front_all(
        sub_views(v@),
        n@,
    ));
    out
}

fn append_subs(a: Vec<Subresult>, b: Vec<Subresult>) -> (r: Vec<Subresult>)
    ensures
        sub_views(r@) == sub_views(a@) + sub_views(b@),
{
    let mut out = a;
    let mut rest = b;
    let ghost va = sub_views(out@);
    let ghost vb = sub_views(rest@);
    let ghost n = vb.len();
    while rest.len() > 0
        invariant
            n == vb.len(),
            rest@.len() <= n,
            sub_views(rest@) == vb.skip(n - rest@.len()),
            sub_views(out@) == va + vb.take(n - rest@.len()),
        decreases rest@.len(),
    {
        let ghost k = n - rest@.len();
        let ghost old_rest = rest@;
        assert(sub_views(old_rest)[0] == old_rest[0]@);
        let s = rest.remove(0);
        let ghost before = out@;
        assert(s@ == vb[k]);
        assert(rest@ =~= old_rest.subrange(1, old_rest.len() as int));
        out.push(s);
        assert(sub_views(out@) =~= sub_views(before).push(s@));
        assert(vb.take(k + 1) =~= vb.take(k).push(vb[k]));
        assert forall|x: int| 0 <= x < rest@.len() implies #[trigger] sub_views(rest@)[x] == vb.skip(
            k + 1,
        )[x] by {
            assert(sub_views(old_rest)[x + 1] == old_rest[x + 1]@);
            assert(vb.skip(k)[x + 1] == vb[k + 1 + x]);
        }
        assert(sub_views(rest@) =~= vb.skip(k + 1));
    }
    assert(vb.take(n as int) =~= vb);
    out
}

fn multiname_rec<'a>(cursor: Frag<'a>) -> (r: Result<(Vec<Subresult>, Frag<'a>), ParseError>)
    ensures
        match r {
            Ok((v, c)) => spec_multiname_rec(cursor@) == Ok::<
                (Seq<SubresultView>, FragView),
                ParseErrorView,
            >((sub_views(v@), c@)) && c@.data.len() < cursor@.data.len(),
            Err(e) => spec_multiname_rec(cursor@) == Err::<
                (Seq<SubresultView>, FragView),
                ParseErrorView,
            >(e@),
        },
    decreases cursor@.data.len(), 0int,
{
    let t = cursor.trim();
    let (head, cur) = t.pop()?;
    assert(cur@.data.len() < cursor@.data.len());
    assert(spec_pop(spec_trim(cursor@)) == Ok::<(EntryView, FragView), ParseErrorView>((head@, cur@)));
    match &head.lexeme {
        Lexeme::LP(PType::Par) => multiname_branch(cur),
        Lexeme::LP(PType::Sqr) => {
            let names: Vec<Subresult> = Vec::new();
            assert(sub_views(names@) =~= Seq::<SubresultView>::empty());
            multiname_sqr(cur, head, names)
        },
        Lexeme::Name(n) => {
            if is_char_str(n, '*') {
                let g = Subresult {
                    glob: true,
                    deque: Vec::new(),
                    range: Range { start: head.range.start, end: head.range.end },
                };
                assert(seg_views(g.deque@) =~= Seq::<Seq<char>>::empty());
                assert(g@ == glob_at(head@));
                let mut v: Vec<Subresult> = Vec::new();
                v.push(g);
                assert(sub_views(v@) =~= seq![glob_at(head@)]);
                assert(spec_multiname_rec(cursor@) == Ok::<
                    (Seq<SubresultView>, FragView),
                    ParseErrorView,
                >((sub_views(v@), cur@)));
                Ok((v, cur))
            } else if is_char_str(n, ',') {
                let mut expected: Vec<Lexeme> = Vec::new();
                expected.push(Lexeme::LP(PType::Par));
                assert(expected@.map_values(|l: Lexeme| l@) =~= seq![LexemeView::LP(PType::Par)]);
                let kind = ParseErrorKind::Expected {
                    expected,
                    or_name: true,
                    found: head.lexeme.clone(),
                };
                let e = error_at(kind, head);
                assert(e@ == expected_err(seq![LexemeView::LP(PType::Par)], true, head@.lexeme, head@));
                Err(e)
            } else {
                let c2 = cur.trim();
                let is_ns = match c2.get(0) {
                    Ok(e) => match e.lexeme {
                        Lexeme::NS => true,
                        _ => false,
                    },
                    Err(_) => false,
                };
                if is_ns {
                    let c3 = c2.step()?;
                    let (out, c4) = multiname_rec(c3)?;
                    let r = push_front_each(out, n);
                    assert(spec_multiname_rec(cursor@) == Ok::<
                        (Seq<SubresultView>, FragView),
                        ParseErrorView,
                    >((sub_views(r@), c4@)));
                    Ok((r, c4))
                } else {
                    let mut v: Vec<Subresult> = Vec::new();
                    v.push(named(n, head));
                    assert(sub_views(v@) =~= seq![named_at(n@, head@)]);
                    assert(spec_multiname_rec(cursor@) == Ok::<
                        (Seq<SubresultView>, FragView),
                        ParseErrorView,
                    >((sub_views(v@), cur@)));
                    Ok((v, cur))
                }
            }
        },
        _ => {
            let mut expected: Vec<Lexeme> = Vec::new();
            expected.push(Lexeme::LP(PType::Par));
            assert(expected@.map_values(|l: Lexeme| l@) =~= seq![LexemeView::LP(PType::Par)]);
            let kind = ParseErrorKind::Expected {
                expected,
                or_name: true,
                found: head.lexeme.clone(),
            };
            let e = error_at(kind, head);
            assert(e@ == expected_err(seq![LexemeView::LP(PType::Par)], true, head@.lexeme, head@));
            Err(e)
        },
    }
}

fn multiname_sqr<'a>(cursor: Frag<'a>, head: &'a Entry, names: Vec<Subresult>) -> (r: Result<
    (Vec<Subresult>, Frag<'a>),
    ParseError,
>)
    ensures
        match r {
            Ok((v, c)) => spec_multiname_sqr(cursor@, head@, sub_views(names@)) == Ok::<
                (Seq<SubresultView>, FragView),
                ParseErrorView,
            >((sub_views(v@), c@)) && c@.data.len() < cursor@.data.len(),
            Err(e) => spec_multiname_sqr(cursor@, head@, sub_views(names@)) == Err::<
                (Seq<SubresultView>, FragView),
                ParseErrorView,
            >(e@),
        },
    decreases cursor@.data.len(), 0int,
{
    let t = cursor.trim();
    let (ent, tail) = t.pop()?;
    match &ent.lexeme {
        Lexeme::Name(n) => {
            let mut names = names;
            let ghost before = names@;
            names.push(named(n, ent));
            assert(sub_views(names@) =~= sub_views(before).push(named_at(n@, ent@)));
            multiname_sqr(tail, head, names)
        },
        Lexeme::RP(PType::Sqr) => Ok((names, tail)),
        _ => {
            let mut expected: Vec<Lexeme> = Vec::new();
            expected.push(Lexeme::RP(PType::Sqr));
            assert(expected@.map_values(|l: Lexeme| l@) =~= seq![LexemeView::RP(PType::Sqr)]);
            let kind = ParseErrorKind::Expected {
                expected,
                or_name: true,
                found: head.lexeme.clone(),
            };
            let e = error_at(kind, ent);
            assert(e@ == expected_err(seq![LexemeView::RP(PType::Sqr)], true, head@.lexeme, ent@));
            Err(e)
        },
    }
}

fn multiname_branch<'a>(cursor: Frag<'a>) -> (r: Result<(Vec<Subresult>, Frag<'a>), ParseError>)
    ensures
        match r {
            Ok((v, c)) => spec_multiname_branch(cursor@) == Ok::<
                (Seq<SubresultView>, FragView),
                ParseErrorView,
            >((sub_views(v@), c@)) && c@.data.len() < cursor@.data.len(),
            Err(e) => spec_multiname_branch(cursor@) == Err::<
                (Seq<SubresultView>, FragView),
                ParseErrorView,
            >(e@),
        },
    decreases cursor@.data.len(), 1int,
{
    let (subnames, c) = multiname_rec(cursor)?;
    let t = c.trim();
    let (ent, c2) = t.pop()?;
    match &ent.lexeme {
        Lexeme::RP(PType::Par) => Ok((subnames, c2)),
        Lexeme::Name(n) if is_char_str(n, ',') => {
            let (rest, cont) = multiname_branch(c2)?;
            Ok((append_subs(subnames, rest), cont))
        },
        _ => {
            let mut expected: Vec<Lexeme> = Vec::new();
            expected.push(Lexeme::Name(comma_string()));
            expected.push(Lexeme::RP(PType::Par));
            assert(expected@.map_values(|l: Lexeme| l@) =~= seq![
                LexemeView::Name(comma()),
                LexemeView::RP(PType::Par),
            ]);
            let kind = ParseErrorKind::Expected { expected, or_name: false, found: ent.lexeme.clone() };
            let e = error_at(kind, ent);
            assert(e@.kind == ParseErrorKindView::Expected {
                expected: seq![LexemeView::Name(comma()), LexemeView::RP(PType::Par)],
                or_name: false,
                found: ent@.lexeme,
            });
            Err(e)
        },
    }
}

fn comma_string() -> (r: String)
    ensures
        r@ == comma(),
{
    let mut s = String::new();
    crate::text::string_push(&mut s, ',');
    assert(s@ =~= comma());
    s
}

fn finalize_exec(s: Subresult) -> (r: Import)
    requires
        s.glob || s.deque@.len() > 0,
    ensures
        r@ == finalize(s@),
{
    let mut deque = s.deque;
    let ghost d = seg_views(deque@);
    if s.glob {
        Import { name: None, path: VPath(deque), range: s.range }
    } else {
        let last = deque.pop().unwrap();
        assert(seg_views(deque@) =~= d.drop_last());
        Import { name: Some(last), path: VPath(deque), range: s.range }
    }
}

/// Parse a tree that describes several names. The tree can be
///
/// - name (except `,` or `*`)
/// - name (except `,` or `*`) `::` tree
/// - `(` tree `,` tree ... `)`
/// - `*` (wildcard)
/// - `[` name name ... `]` (including `,` or `*`).
pub fn parse_multiname<'a>(cursor: Frag<'a>) -> (r: Result<(Vec<Import>, Frag<'a>), ParseError>)
    ensures
        match r {
            Ok((v, c)) => spec_parse_multiname(cursor@) == Ok::<
                (Seq<ImportView>, FragView),
                ParseErrorView,
            >((v@.map_values(|i: Import| i@), c@)) && c@.data.len() < cursor@.data.len(),
            Err(e) => spec_parse_multiname(cursor@) == Err::<(Seq<ImportView>, FragView), ParseErrorView>(
                e@,
            ),
        },
{
    let (subs, cont) = multiname_rec(cursor)?;
    proof {
        lemma_subresults_nonempty(cursor@);
    }
    let mut out: Vec<Import> = Vec::new();
    let mut subs = subs;
    let ghost sv = sub_views(subs@);
    let ghost n = sv.len();
    while subs.len() > 0
        invariant
            n == sv.len(),
            subs@.len() <= n,
            subs_ok(sv),
            sub_views(subs@) == sv.skip(n - subs@.len()),
            out@.map_values(|i: Import| i@) == sv.take(n - subs@.len()).map_values(
                |s: SubresultView| finalize(s),
            ),
        decreases subs@.len(),
    {
        let ghost k = n - subs@.len();
        let ghost old_subs = subs@;
        assert(sub_views(old_subs)[0] == old_subs[0]@);
        let s = subs.remove(0);
        assert(s@ == sv[k]);
        assert(subs@ =~= old_subs.subrange(1, old_subs.len() as int));
        assert(sv[k].glob || sv[k].deque.len() > 0);
        let imp = finalize_exec(s);
        let ghost before = out@;
        out.push(imp);
        assert(out@.map_values(|i: Import| i@) =~= before.map_values(|i: Import| i@).push(imp@));
        assert(sv.take(k + 1).map_values(|s: SubresultView| finalize(s)) =~= sv.take(
            k,
        ).map_values(|s: SubresultView| finalize(s)).push(finalize(sv[k])));
        assert forall|x: int| 0 <= x < subs@.len() implies #[trigger] sub_views(subs@)[x] == sv.skip(
            k + 1,
        )[x] by {
            assert(sub_views(old_subs)[x + 1] == old_subs[x + 1]@);
            assert(sv.skip(k)[x + 1] == sv[k + 1 + x]);
        }
        assert(sub_views(subs@) =~= sv.skip(k + 1));
    }
    assert(sv.take(n as int) =~= sv);
    Ok((out, cont))
}

/// Every branch of a parsed name tree ends in a name or a glob.
pub open spec fn subs_ok(v: Seq<SubresultView>) -> bool {
    forall|k: int| 0 <= k < v.len() ==> v[k].glob || (#[trigger] v[k]).deque.len() > 0
}

proof fn lemma_subresults_nonempty(f: FragView)
    ensures
        spec_multiname_rec(f) matches Ok((v, _)) ==> subs_ok(v),
    decreases f.data.len(), 0int,
{
    lemma_rec_ok(f);
}

proof fn lemma_rec_ok(f: FragView)
    ensures
        spec_multiname_rec(f) matches Ok((v, _)) ==> subs_ok(v),
    decreases f.data.len(), 0int,
{
    match spec_pop(spec_trim(f)) {
        Err(e) => {},
        Ok((head, cur)) => if cur.data.len() >= f.data.len() {
        } else {
            match head.lexeme {
                LexemeView::LP(PType::Par) => {
                    lemma_branch_ok(cur);
                },
                LexemeView::LP(PType::Sqr) => {
                    lemma_sqr_ok(cur, head, Seq::empty());
                },
                LexemeView::Name(n) => if n == star() {
                } else if n == comma() {
                } else {
                    let c2 = spec_trim(cur);
                    if starts_with_ns(c2) {
                        let c3 = FragView { fallback: c2.data[0], data: c2.data.drop_first() };
                        if c3.data.len() < f.data.len() {
                            lemma_rec_ok(c3);
                            match spec_multiname_rec(c3) {
                                Ok((out, c4)) => {
                                    assert(subs_ok(push_front_all(out, n)));
                                },
                                Err(e) => {},
                            }
                        }
                    }
                },
                _ => {},
            }
        },
    }
}

proof fn lemma_sqr_ok(f: FragView, head: EntryView, names: Seq<SubresultView>)
    requires
        subs_ok(names),
    ensures
        spec_multiname_sqr(f, head, names) matches Ok((v, _)) ==> subs_ok(v),
    decreases f.data.len(), 0int,
{
    match spec_pop(spec_trim(f)) {
        Err(e) => {},
        Ok((ent, tail)) => if tail.data.len() >= f.data.len() {
        } else {
            match ent.lexeme {
                LexemeView::Name(n) => {
                    lemma_sqr_ok(tail, head, names.push(named_at(n, ent)));
                },
                _ => {},
            }
        },
    }
}

proof fn lemma_branch_ok(f: FragView)
    ensures
        spec_multiname_branch(f) matches Ok((v, _)) ==> subs_ok(v),
    decreases f.data.len(), 1int,
{
    lemma_rec_ok(f);
    match spec_multiname_rec(f) {
        Err(e) => {},
        Ok((subs, c)) => match spec_pop(spec_trim(c)) {
            Err(e) => {},
            Ok((ent, c2)) => match ent.lexeme {
                LexemeView::Name(n) => if n == comma() && c2.data.len() < f.data.len() {
                    lemma_branch_ok(c2);
                },
                _ => {},
            },
        },
    }
}

/// The branches a run of name entries makes inside `[ ... ]`.
pub open spec fn bracket_subs(ns: Seq<EntryView>) -> Seq<SubresultView> {
    ns.map_values(|e: EntryView| named_at(e.lexeme->Name_0, e))
}

proof fn lemma_sqr_names(
    ns: Seq<EntryView>,
    rp: EntryView,
    fb: EntryView,
    head: EntryView,
    i: int,
    acc: Seq<SubresultView>,
)
    requires
        0 <= i <= ns.len(),
        forall|j: int| 0 <= j < ns.len() ==> (#[trigger] ns[j]).lexeme is Name,
        rp.lexeme == LexemeView::RP(PType::Sqr),
    ensures
        spec_multiname_sqr(FragView { fallback: fb, data: ns.skip(i) + seq![rp] }, head, acc) == Ok::<
            (Seq<SubresultView>, FragView),
            ParseErrorView,
        >((acc + bracket_subs(ns.skip(i)), FragView { fallback: rp, data: Seq::empty() })),
    decreases ns.len() - i,
{
    let data = ns.skip(i) + seq![rp];
    let f = FragView { fallback: fb, data };
    if i < ns.len() {
        assert(data[0] == ns[i]);
    }
    lemma_trim_plain(data);
    assert(spec_trim(f) == f);
    if i < ns.len() {
        let e = ns[i];
        assert(data.drop_first() =~= ns.skip(i + 1) + seq![rp]);
        lemma_sqr_names(ns, rp, e, head, i + 1, acc.push(named_at(e.lexeme->Name_0, e)));
        assert(acc.push(named_at(e.lexeme->Name_0, e)) + bracket_subs(ns.skip(i + 1)) =~= acc
            + bracket_subs(ns.skip(i)));
    } else {
        assert(data =~= seq![rp]);
        assert(data.drop_first() =~= Seq::<EntryView>::empty());
        assert(bracket_subs(ns.skip(i)) =~= Seq::<SubresultView>::empty());
        assert(acc + bracket_subs(ns.skip(i)) =~= acc);
    }
}

proof fn lemma_bracket_rec(f: FragView)
    requires
        f.data.len() >= 2,
        f.data[0].lexeme == LexemeView::LP(PType::Sqr),
        f.data.last().lexeme == LexemeView::RP(PType::Sqr),
        forall|j: int| 1 <= j < f.data.len() - 1 ==> (#[trigger] f.data[j]).lexeme is Name,
    ensures
        spec_multiname_rec(f) == Ok::<(Seq<SubresultView>, FragView), ParseErrorView>(
            (
                bracket_subs(f.data.subrange(1, f.data.len() - 1)),
                FragView { fallback: f.data.last(), data: Seq::empty() },
            ),
        ),
{
    let n = f.data.len() as int;
    let ns = f.data.subrange(1, n - 1);
    let lp = f.data[0];
    let rp = f.data[n - 1];
    lemma_trim_plain(f.data);
    assert(spec_trim(f) == f);
    assert forall|j: int| 0 <= j < ns.len() implies (#[trigger] ns[j]).lexeme is Name by {
        assert(ns[j] == f.data[j + 1]);
    }
    assert(f.data.drop_first() =~= ns.skip(0) + seq![rp]);
    lemma_sqr_names(ns, rp, lp, lp, 0, Seq::empty());
    assert(Seq::<SubresultView>::empty() + bracket_subs(ns.skip(0)) =~= bracket_subs(ns));
}

/// A square-bracket group of names imports each of them, in their order:
/// the fragment `[ n1 ... nk ]` parses to exactly k imports, the j-th named
/// nj, with an empty path and the range of its name, and nothing is left.
pub proof fn law_bracket_names(f: FragView)
    requires
        f.data.len() >= 2,
        f.data[0].lexeme == LexemeView::LP(PType::Sqr),
        f.data.last().lexeme == LexemeView::RP(PType::Sqr),
        forall|j: int| 1 <= j < f.data.len() - 1 ==> (#[trigger] f.data[j]).lexeme is Name,
    ensures
        spec_parse_multiname(f) matches Ok((imports, rest)) && imports.len() == f.data.len() - 2
            && rest.data.len() == 0 && forall|j: int|
            0 <= j < imports.len() ==> #[trigger] imports[j] == (ImportView {
                name: Some(f.data[j + 1].lexeme->Name_0),
                path: Seq::empty(),
                start: f.data[j + 1].start,
                end: f.data[j + 1].end,
            }),
{
    let n = f.data.len() as int;
    let ns = f.data.subrange(1, n - 1);
    lemma_bracket_rec(f);
    let imports = bracket_subs(ns).map_values(|s: SubresultView| finalize(s));
    assert forall|j: int| 0 <= j < imports.len() implies #[trigger] imports[j] == (ImportView {
        name: Some(f.data[j + 1].lexeme->Name_0),
        path: Seq::empty(),
        start: f.data[j + 1].start,
        end: f.data[j + 1].end,
    }) by {
        assert(ns[j] == f.data[j + 1]);
        let nm = f.data[j + 1].lexeme->Name_0;
        assert(seq![nm].last() == nm);
        assert(seq![nm].drop_last() =~= Seq::<Seq<char>>::empty());
    }
}

/// After `p ::`, a square-bracket group of names imports each of them from
/// `p`, in their order: `p :: [ n1 ... nk ]` parses to exactly k imports,
/// the j-th named nj with the path `p`, and nothing is left.
pub proof fn law_bracket_names_under(f: FragView)
    requires
        f.data.len() >= 4,
        f.data[0].lexeme is Name,
        f.data[0].lexeme->Name_0 != star(),
        f.data[0].lexeme->Name_0 != comma(),
        f.data[1].lexeme == LexemeView::NS,
        f.data[2].lexeme == LexemeView::LP(PType::Sqr),
        f.data.last().lexeme == LexemeView::RP(PType::Sqr),
        forall|j: int| 3 <= j < f.data.len() - 1 ==> (#[trigger] f.data[j]).lexeme is Name,
    ensures
        spec_parse_multiname(f) matches Ok((imports, rest)) && imports.len() == f.data.len() - 4
            && rest.data.len() == 0 && forall|j: int|
            0 <= j < imports.len() ==> #[trigger] imports[j] == (ImportView {
                name: Some(f.data[j + 3].lexeme->Name_0),
                path: seq![f.data[0].lexeme->Name_0],
                start: f.data[j + 3].start,
                end: f.data[j + 3].end,
            }),
{
    let n = f.data.len() as int;
    let p = f.data[0].lexeme->Name_0;
    lemma_trim_plain(f.data);
    assert(spec_trim(f) == f);
    let cur = FragView { fallback: f.data[0], data: f.data.drop_first() };
    assert(cur.data[0] == f.data[1]);
    lemma_trim_plain(cur.data);
    assert(spec_trim(cur) == cur);
    assert(starts_with_ns(cur));
    let c3 = FragView { fallback: cur.data[0], data: cur.data.drop_first() };
    assert(c3.data =~= f.data.subrange(2, n));
    lemma_bracket_rec(c3);
    let ns = f.data.subrange(3, n - 1);
    assert(c3.data.subrange(1, c3.data.len() - 1) =~= ns);
    let out = bracket_subs(ns);
    assert(spec_multiname_rec(f) == Ok::<(Seq<SubresultView>, FragView), ParseErrorView>(
        (push_front_all(out, p), FragView { fallback: c3.data.last(), data: Seq::empty() }),
    ));
    let imports = push_front_all(out, p).map_values(|s: SubresultView| finalize(s));
    assert forall|j: int| 0 <= j < imports.len() implies #[trigger] imports[j] == (ImportView {
        name: Some(f.data[j + 3].lexeme->Name_0),
        path: seq![p],
        start: f.data[j + 3].start,
        end: f.data[j + 3].end,
    }) by {
        assert(ns[j] == f.data[j + 3]);
        let nm = f.data[j + 3].lexeme->Name_0;
        assert(out[j].deque == seq![nm]);
        assert(seq![p] + seq![nm] =~= seq![p, nm]);
        assert(seq![p, nm].last() == nm);
        assert(seq![p, nm].drop_last() =~= seq![p]);
    }
}

/// The fragment entries `d` read as `( n1 , n2 , ... , nk )`: an opening
/// paren, `k` names other than `*` and `,` with a comma between each two, and
/// a closing paren.
pub open spec fn paren_list(d: Seq<EntryView>, k: nat) -> bool {
    &&& k > 0
    &&& d.len() == 2 * k + 1
    &&& d[0].lexeme == LexemeView::LP(PType::Par)
    &&& d[2 * k as int].lexeme == LexemeView::RP(PType::Par)
    &&& forall|i: int|
        0 <= i < k ==> (#[trigger] d[2 * i + 1]).lexeme is Name && d[2 * i + 1].lexeme->Name_0 != star()
            && d[2 * i + 1].lexeme->Name_0 != comma()
    &&& forall|i: int| 1 <= i < k ==> (#[trigger] d[2 * i]).lexeme == LexemeView::Name(comma())
}

spec fn paren_subs(d: Seq<EntryView>, k: nat, i: int) -> Seq<SubresultView> {
    Seq::new((k - i) as nat, |x: int| named_at(d[2 * (i + x) + 1].lexeme->Name_0, d[2 * (i + x) + 1]))
}

proof fn lemma_paren_branch(d: Seq<EntryView>, k: nat, i: int, fb: EntryView)
    requires
        paren_list(d, k),
        0 <= i < k,
    ensures
        spec_multiname_branch(FragView { fallback: fb, data: d.skip(2 * i + 1) }) == Ok::<
            (Seq<SubresultView>, FragView),
            ParseErrorView,
        >((paren_subs(d, k, i), FragView { fallback: d[2 * k as int], data: Seq::empty() })),
    decreases k - i,
{
    let j = 2 * i + 1;
    let f = FragView { fallback: fb, data: d.skip(j) };
    let e = d[j];
    assert(e == d[2 * i + 1]);
    let nm = e.lexeme->Name_0;
    assert(f.data[0] == e);
    assert(f.data.last() == d[2 * k as int]);
    lemma_trim_plain(f.data);
    assert(spec_trim(f) == f);
    let cur = FragView { fallback: e, data: d.skip(j + 1) };
    assert(f.data.drop_first() =~= cur.data);
    assert(cur.data[0] == d[j + 1]);
    assert(cur.data.last() == d[2 * k as int]);
    lemma_trim_plain(cur.data);
    assert(spec_trim(cur) == cur);
    if i + 1 < k {
        assert(d[2 * (i + 1)].lexeme == LexemeView::Name(comma()));
    }
    assert(!starts_with_ns(cur));
    assert(spec_multiname_rec(f) == Ok::<(Seq<SubresultView>, FragView), ParseErrorView>(
        (seq![named_at(nm, e)], cur),
    ));
    let ent = d[j + 1];
    let c2 = FragView { fallback: ent, data: d.skip(j + 2) };
    assert(cur.data.drop_first() =~= c2.data);
    if i + 1 < k {
        assert(ent == d[2 * (i + 1)]);
        lemma_paren_branch(d, k, i + 1, ent);
        assert(d.skip(2 * (i + 1) + 1) =~= c2.data);
        assert(seq![named_at(nm, e)] + paren_subs(d, k, i + 1) =~= paren_subs(d, k, i));
    } else {
        assert(j + 1 == 2 * k);
        assert(c2.data =~= Seq::<EntryView>::empty());
        assert(seq![named_at(nm, e)] =~= paren_subs(d, k, i));
    }
}

/// A parenthesized list of names imports each of them, in their order: the
/// fragment `( n1 , n2 , ... , nk )` parses to exactly k imports, the j-th
/// named nj, with an empty path and the range of its name, and nothing is
/// left.
pub proof fn law_paren_names(f: FragView, k: nat)
    requires
        paren_list(f.data, k),
    ensures
        spec_parse_multiname(f) matches Ok((imports, rest)) && imports.len() == k && rest.data.len()
            == 0 && forall|j: int|
            0 <= j < k ==> #[trigger] imports[j] == (ImportView {
                name: Some(f.data[2 * j + 1].lexeme->Name_0),
                path: Seq::empty(),
                start: f.data[2 * j + 1].start,
                end: f.data[2 * j + 1].end,
            }),
{
    let d = f.data;
    assert(d.last() == d[2 * k as int]);
    lemma_trim_plain(d);
    assert(spec_trim(f) == f);
    lemma_paren_branch(d, k, 0, d[0]);
    assert(d.drop_first() =~= d.skip(1));
    let subs = paren_subs(d, k, 0);
    let imports = subs.map_values(|s: SubresultView| finalize(s));
    assert forall|j: int| 0 <= j < k implies #[trigger] imports[j] == (ImportView {
        name: Some(d[2 * j + 1].lexeme->Name_0),
        path: Seq::empty(),
        start: d[2 * j + 1].start,
        end: d[2 * j + 1].end,
    }) by {
        let nm = d[2 * j + 1].lexeme->Name_0;
        assert(subs[j] == named_at(nm, d[2 * j + 1]));
        assert(seq![nm].last() == nm);
        assert(seq![nm].drop_last() =~= Seq::<Seq<char>>::empty());
    }
}

/// The fragment entries `d` read as `n1 :: n2 :: ... :: nk`: `k` names with
/// `::` between each two, none of them `,` and none but the last `*`.
pub open spec fn name_path(d: Seq<EntryView>, k: nat) -> bool {
    &&& k > 0
    &&& d.len() == 2 * k - 1
    &&& forall|i: int|
        0 <= i < k ==> (#[trigger] d[2 * i]).lexeme is Name && d[2 * i].lexeme->Name_0 != comma()
    &&& forall|i: int| 0 <= i < k - 1 ==> (#[trigger] d[2 * i]).lexeme->Name_0 != star()
    &&& forall|i: int| 0 <= i < k - 1 ==> (#[trigger] d[2 * i + 1]).lexeme == LexemeView::NS
}

spec fn path_names(d: Seq<EntryView>, i: int, m: int) -> Seq<Seq<char>> {
    Seq::new((m - i) as nat, |x: int| d[2 * (i + x)].lexeme->Name_0)
}

spec fn path_sub(d: Seq<EntryView>, k: nat, i: int) -> SubresultView {
    let last = d[2 * k - 2];
    let glob = last.lexeme->Name_0 == star();
    SubresultView {
        glob,
        deque: path_names(d, i, if glob { k - 1 } else { k as int }),
        start: last.start,
        end: last.end,
    }
}

proof fn lemma_name_path(d: Seq<EntryView>, k: nat, i: int, fb: EntryView)
    requires
        name_path(d, k),
        0 <= i < k,
    ensures
        spec_multiname_rec(FragView { fallback: fb, data: d.skip(2 * i) }) == Ok::<
            (Seq<SubresultView>, FragView),
            ParseErrorView,
        >((seq![path_sub(d, k, i)], FragView { fallback: d[2 * k - 2], data: Seq::empty() })),
    decreases k - i,
{
    let f = FragView { fallback: fb, data: d.skip(2 * i) };
    let head = d[2 * i];
    let n = head.lexeme->Name_0;
    assert(f.data[0] == head);
    assert(f.data.last() == d[2 * k - 2]);
    assert(d[2 * (k - 1)] == d[2 * k - 2]);
    lemma_trim_plain(f.data);
    assert(spec_trim(f) == f);
    let cur = FragView { fallback: head, data: d.skip(2 * i + 1) };
    assert(f.data.drop_first() =~= cur.data);
    let sub = path_sub(d, k, i);
    if i + 1 < k {
        assert(d[2 * i + 1].lexeme == LexemeView::NS);
        assert(cur.data[0] == d[2 * i + 1]);
        assert(cur.data.last() == d[2 * k - 2]);
        lemma_trim_plain(cur.data);
        assert(spec_trim(cur) == cur);
        let c3 = FragView { fallback: cur.data[0], data: cur.data.drop_first() };
        assert(c3.data =~= d.skip(2 * (i + 1)));
        lemma_name_path(d, k, i + 1, cur.data[0]);
        let inner = path_sub(d, k, i + 1);
        assert(seq![n] + inner.deque =~= sub.deque);
        assert(push_front_all(seq![inner], n) =~= seq![sub]);
    } else {
        assert(cur.data =~= Seq::<EntryView>::empty());
        assert(trim_seq(cur.data) =~= Seq::<EntryView>::empty());
        if n == star() {
            assert(sub.deque =~= Seq::<Seq<char>>::empty());
            assert(glob_at(head) == sub);
        } else {
            assert(sub.deque =~= seq![n]);
            assert(named_at(n, head) == sub);
        }
    }
}

/// A path of names imports its last name from the names before it: the
/// fragment `n1 :: ... :: nk` parses to one import of name `nk` and path
/// `n1 ... n(k-1)`, or, where `nk` is `*`, to a glob import of that path,
/// with the range of its last entry, and nothing is left.
pub proof fn law_name_path(f: FragView, k: nat)
    requires
        name_path(f.data, k),
    ensures
        spec_parse_multiname(f) matches Ok((imports, rest)) && imports.len() == 1 && rest.data.len()
            == 0 && imports[0] == (ImportView {
            name: if f.data[2 * k - 2].lexeme->Name_0 == star() {
                None
            } else {
                Some(f.data[2 * k - 2].lexeme->Name_0)
            },
            path: Seq::new((k - 1) as nat, |x: int| f.data[2 * x].lexeme->Name_0),
            start: f.data[2 * k - 2].start,
            end: f.data[2 * k - 2].end,
        }),
{
    let d = f.data;
    lemma_name_path(d, k, 0, f.fallback);
    assert(d.skip(0) =~= d);
    let sub = path_sub(d, k, 0);
    let path = Seq::new((k - 1) as nat, |x: int| d[2 * x].lexeme->Name_0);
    if sub.glob {
        assert(sub.deque =~= path);
    } else {
        assert(sub.deque.drop_last() =~= path);
        assert(sub.deque.last() == d[2 * (k - 1)].lexeme->Name_0);
        assert(d[2 * (k - 1)] == d[2 * k - 2]);
    }
}

} // verus!
