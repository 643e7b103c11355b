//! The [Frag] is the main input datastructure of parsers. Beyond the slice of
//! tokens, it contains a fallback value that can be used for error reporting if
//! the fragment is empty.

use std::ops::Range;
use vstd::prelude::*;

use crate::errors::{eol_at, err_at, error_at, unexpected_eol, ParseError, ParseErrorKind, ParseErrorKindView, ParseErrorView};
use crate::lexer::{spec_is_filler, Entry, EntryView, Lexeme, LexemeView};

verus! {

/// Represents a slice which may or may not contain items, and a fallback entry
/// used for error reporting whenever the errant fragment is empty.
#[derive(Clone, Copy)]
pub struct Frag<'a> {
    /// Entry to place in errors if the fragment contains no tokens
    pub fallback: &'a Entry,
    /// Tokens to parse
    pub data: &'a [Entry],
}

/// The abstract value of a [Frag]
pub struct FragView {
    pub fallback: EntryView,
    pub data: Seq<EntryView>,
}

impl<'a> View for Frag<'a> {
    type V = FragView;

    open spec fn view(&self) -> FragView {
        FragView { fallback: self.fallback@, data: self.data@.map_values(|e: Entry| e@) }
    }
}

/// The first index at or after `i` whose entry is not a filler.
pub open spec fn lead_fill(s: Seq<EntryView>, i: int) -> int
    decreases s.len() - i,
{
    if 0 <= i < s.len() && spec_is_filler(s[i].lexeme) {
        lead_fill(s, i + 1)
    } else {
        i
    }
}

/// The end of `s[..j]` once the fillers before `j` are cut off.
pub open spec fn trail_fill(s: Seq<EntryView>, j: int) -> int
    decreases j,
{
    if 0 < j <= s.len() && spec_is_filler(s[j - 1].lexeme) {
        trail_fill(s, j - 1)
    } else {
        j
    }
}

/// `s` without fillers at either end.
pub open spec fn trim_seq(s: Seq<EntryView>) -> Seq<EntryView> {
    let right = s.subrange(lead_fill(s, 0), s.len() as int);
    right.subrange(0, trail_fill(right, right.len() as int))
}

/// The fragment without comments and line breaks at either end.
pub open spec fn spec_trim(f: FragView) -> FragView {
    FragView { fallback: f.fallback, data: trim_seq(f.data) }
}

/// The first entry of a fragment, and the fragment after it.
pub open spec fn spec_pop(f: FragView) -> Result<(EntryView, FragView), ParseErrorView> {
    if f.data.len() == 0 {
        Err(eol_at(f.fallback))
    } else {
        Ok((f.data[0], FragView { fallback: f.data[0], data: f.data.drop_first() }))
    }
}

/// The fragment without its first entry, which becomes the fallback.
pub open spec fn spec_step(f: FragView) -> Result<FragView, ParseErrorView> {
    if f.data.len() == 0 {
        Err(eol_at(f.fallback))
    } else {
        Ok(FragView { fallback: f.data[0], data: f.data.drop_first() })
    }
}

/// The entry that stands in for the end of a fragment: its last one, or the
/// fallback.
pub open spec fn last_or_fallback(f: FragView) -> EntryView {
    if f.data.len() == 0 {
        f.fallback
    } else {
        f.data.last()
    }
}

/// The byte range a fragment covers.
pub open spec fn spec_range(f: FragView) -> (nat, nat) {
    if f.data.len() == 0 {
        (f.fallback.start, f.fallback.end)
    } else {
        (f.data[0].start, f.data.last().end)
    }
}

/// The parenthesis nesting after the first `k` entries, starting at level 1.
pub open spec fn paren_level(s: Seq<EntryView>, k: int) -> int
    decreases k,
{
    if k <= 0 {
        1
    } else {
        paren_level(s, k - 1) + if s[k - 1].lexeme is LP {
            1int
        } else if s[k - 1].lexeme is RP {
            -1int
        } else {
            0int
        }
    }
}

/// Whether entry `i` is outside any parenthesis opened within the fragment.
pub open spec fn top_level(s: Seq<EntryView>, i: int) -> bool {
    paren_level(s, i + 1) <= 1
}

/// Tokens at the top level, only outside parentheses opened inside the
/// fragment, are candidates for splitting.
impl<'a> Frag<'a> {
    /// Create a new fragment
    pub fn new(fallback: &'a Entry, data: &'a [Entry]) -> (r: Self)
        ensures
            r.fallback == fallback,
            r.data == data,
    {
        Frag { fallback, data }
    }

    /// Remove comments and line breaks from both ends of the text
    pub fn trim(self) -> (r: Self)
        ensures
            r@ == spec_trim(self@),
            r@.data.len() <= self@.data.len(),
    {
        let data = self.data;
        let ghost s = self@.data;
        let n = data.len();
        let mut front: usize = 0;
        while front < n && data[front].is_filler()
            invariant
                front <= n,
                n == data@.len(),
                s == data@.map_values(|e: Entry| e@),
                lead_fill(s, 0) == lead_fill(s, front as int),
            decreases n - front,
        {
            front = front + 1;
        }
        let (_, right) = data.split_at(front);
        let ghost rs = s.subrange(front as int, n as int);
        assert(right@.map_values(|e: Entry| e@) =~= rs);
        let m = right.len();
        let mut end: usize = m;
        while end > 0 && right[end - 1].is_filler()
            invariant
                end <= m,
                m == right@.len(),
                rs == right@.map_values(|e: Entry| e@),
                trail_fill(rs, m as int) == trail_fill(rs, end as int),
            decreases end,
        {
            end = end - 1;
        }
        let (kept, _) = right.split_at(end);
        let r = Frag { fallback: self.fallback, data: kept };
        assert(r@.data =~= spec_trim(self@).data);
        r
    }

    /// Discard the first entry
    pub fn step(self) -> (r: Result<Self, ParseError>)
        ensures
            match r {
                Ok(f) => spec_step(self@) == Ok::<FragView, ParseErrorView>(f@),
                Err(e) => spec_step(self@) == Err::<FragView, ParseErrorView>(e@),
            },
    {
        if self.data.len() == 0 {
            return Err(unexpected_eol(self.fallback));
        }
        let (head, rest) = self.data.split_at(1);
        let r = Frag { fallback: &head[0], data: rest };
        assert(r@.data =~= self@.data.drop_first());
        Ok(r)
    }

    /// Get the first entry
    pub fn pop(self) -> (r: Result<(&'a Entry, Self), ParseError>)
        ensures
            match r {
                Ok((e, f)) => self@.data.len() > 0 && e@ == self@.data[0] && spec_step(self@)
                    == Ok::<FragView, ParseErrorView>(f@),
                Err(e) => self@.data.len() == 0 && e@ == eol_at(self@.fallback),
            },
    {
        let e = self.get(0)?;
        let f = self.step()?;
        Ok((e, f))
    }

    /// Retrieve an index from a slice or raise an [ParseErrorKind::UnexpectedEOL].
    pub fn get(self, idx: usize) -> (r: Result<&'a Entry, ParseError>)
        ensures
            match r {
                Ok(e) => idx < self@.data.len() && e@ == self@.data[idx as int],
                Err(e) => idx >= self@.data.len() && e@ == eol_at(last_or_fallback(self@)),
            },
    {
        if idx < self.data.len() {
            Ok(&self.data[idx])
        } else {
            let n = self.data.len();
            let entry = if n == 0 {
                self.fallback
            } else {
                &self.data[n - 1]
            };
            Err(unexpected_eol(entry))
        }
    }

    /// Area covered by this fragment
    pub fn range(self) -> (r: Range<usize>)
        ensures
            (r.start as nat, r.end as nat) == spec_range(self@),
    {
        let n = self.data.len();
        if n == 0 {
            Range { start: self.fallback.range.start, end: self.fallback.range.end }
        } else {
            Range { start: self.data[0].range.start, end: self.data[n - 1].range.end }
        }
    }

    /// Remove the last item from the fragment
    pub fn pop_back(self) -> (r: Result<(&'a Entry, Self), ParseError>)
        ensures
            match r {
                Ok((e, f)) => self@.data.len() > 0 && e@ == self@.data.last() && f@ == FragView {
                    fallback: self@.fallback,
                    data: self@.data.drop_last(),
                },
                Err(e) => self@.data.len() == 0 && e@ == eol_at(self@.fallback),
            },
    {
        let n = self.data.len();
        if n == 0 {
            return Err(unexpected_eol(self.fallback));
        }
        let (init, last) = self.data.split_at(n - 1);
        let r = Frag { fallback: self.fallback, data: init };
        assert(r@.data =~= self@.data.drop_last());
        Ok((&last[0], r))
    }

    /// Use the first entry of a non-empty slice as the fallback.
    pub fn from_slice(data: &'a [Entry]) -> (r: Self)
        requires
            data@.len() > 0,
        ensures
            r.data == data,
            r.fallback == &data@[0],
    {
        Frag { fallback: &data[0], data }
    }

    /// Assert that the fragment is empty.
    pub fn expect_empty(self) -> (r: Result<(), ParseError>)
        ensures
            match r {
                Ok(()) => self@.data.len() == 0,
                Err(e) => self@.data.len() > 0 && e@ == err_at(
                    ParseErrorKindView::ExpectedEOL,
                    self@.data[0],
                ),
            },
    {
        if self.data.len() > 0 {
            Err(error_at(ParseErrorKind::ExpectedEOL, &self.data[0]))
        } else {
            Ok(())
        }
    }

    /// Find a given token outside parentheses, split the fragment there and
    /// read some value from the separator. See also [Frag::find]
    pub fn find_map<T, F: Fn(&Lexeme) -> Option<T>>(self, msg: &'static str, f: F) -> (r: Result<
        (Self, T, Self),
        ParseError,
    >)
        requires
            forall|l: &Lexeme| call_requires(f, (l,)),
        ensures
            match r {
                Ok((left, t, right)) => exists|i: int|
                    0 <= i < self@.data.len() && top_level(self@.data, i) && call_ensures(
                        f,
                        (&self.data@[i].lexeme,),
                        Some(t),
                    ) && (forall|j: int|
                        0 <= j < i && top_level(self@.data, j) ==> call_ensures(
                            f,
                            (&self.data@[j].lexeme,),
                            None,
                        )) && left@ == FragView {
                        fallback: self@.fallback,
                        data: self@.data.take(i),
                    } && right@ == FragView {
                        fallback: self@.data[i],
                        data: self@.data.skip(i + 1),
                    },
                Err(e) => (forall|j: int|
                    0 <= j < self@.data.len() && top_level(self@.data, j) ==> call_ensures(
                        f,
                        (&self.data@[j].lexeme,),
                        None,
                    )) && e@ == ParseErrorView {
                    kind: ParseErrorKindView::NotFound(msg@),
                    start: spec_range(self@).0,
                    end: spec_range(self@).1,
                },
            },
    {
        let data = self.data;
        let n = data.len();
        let ghost s = self@.data;
        let mut lvl: i128 = 1;
        let mut i: usize = 0;
        while i < n
            invariant
                i <= n,
                n == data@.len(),
                data == self.data,
                s == self@.data,
                s == data@.map_values(|e: Entry| e@),
                lvl == paren_level(s, i as int),
                -(i as int) <= lvl - 1 <= i,
                forall|l: &Lexeme| call_requires(f, (l,)),
                forall|j: int|
                    0 <= j < i && top_level(s, j) ==> call_ensures(f, (&data@[j].lexeme,), None),
            decreases n - i,
        {
            match data[i].lexeme {
                Lexeme::LP(_) => {
                    lvl = lvl + 1;
                },
                Lexeme::RP(_) => {
                    lvl = lvl - 1;
                },
                _ => {},
            }
            if lvl <= 1 {
                if let Some(t) = f(&data[i].lexeme) {
                    let (left, not_left) = data.split_at(i);
                    let (mid, right) = not_left.split_at(1);
                    let l = Frag { fallback: self.fallback, data: left };
                    let rf = Frag { fallback: &mid[0], data: right };
                    assert(l@.data =~= s.take(i as int));
                    assert(rf@.data =~= s.skip(i + 1));
                    assert(paren_level(s, i + 1) == lvl);
                    assert(mid@[0] == data@[i as int]);
                    assert(rf.fallback@ == s[i as int]);
                    assert(l@.fallback == self@.fallback);

                    assert(top_level(s, i as int));
                    assert(0 <= i < self@.data.len() && top_level(self@.data, i as int) && call_ensures(
                        f,
                        (&self.data@[i as int].lexeme,),
                        Some(t),
                    ) && (forall|j: int|
                        0 <= j < i && top_level(self@.data, j) ==> call_ensures(
                            f,
                            (&self.data@[j].lexeme,),
                            None,
                        )) && l@ == FragView {
                        fallback: self@.fallback,
                        data: self@.data.take(i as int),
                    } && rf@ == FragView {
                        fallback: self@.data[i as int],
                        data: self@.data.skip(i + 1),
                    });
                    return Ok((l, t, rf));
                }
            }
            i = i + 1;
        }
        let range = self.range();
        Err(ParseError { kind: ParseErrorKind::NotFound(msg), range })
    }

    /// Split the fragment at the first top-level token `f` accepts and
    /// return just the two sides. See also [Frag::find_map].
    pub fn find<F: Fn(&Lexeme) -> bool>(self, descr: &'static str, f: F) -> (r: Result<(Self, Self), ParseError>)
        requires
            forall|l: &Lexeme| call_requires(f, (l,)),
        ensures
            match r {
                Ok((left, right)) => exists|i: int|
                    0 <= i < self@.data.len() && top_level(self@.data, i) && call_ensures(
                        f,
                        (&self.data@[i].lexeme,),
                        true,
                    ) && (forall|j: int|
                        0 <= j < i && top_level(self@.data, j) ==> call_ensures(
                            f,
                            (&self.data@[j].lexeme,),
                            false,
                        )) && left@ == FragView {
                        fallback: self@.fallback,
                        data: self@.data.take(i),
                    } && right@ == FragView {
                        fallback: self@.data[i],
                        data: self@.data.skip(i + 1),
                    },
                Err(e) => (forall|j: int|
                    0 <= j < self@.data.len() && top_level(self@.data, j) ==> call_ensures(
                        f,
                        (&self.data@[j].lexeme,),
                        false,
                    )) && e@ == ParseErrorView {
                    kind: ParseErrorKindView::NotFound(descr@),
                    start: spec_range(self@).0,
                    end: spec_range(self@).1,
                },
            },
    {
        let fr = &f;
        let pick = move |l: &Lexeme| -> (o: Option<()>)
            requires
                call_requires(fr, (l,)),
            ensures
                o is Some ==> call_ensures(fr, (l,), true),
                o is None ==> call_ensures(fr, (l,), false),
            {
                if fr(l) {
                    Some(())
                } else {
                    None
                }
            };
        let (l, _, r) = self.find_map(descr, pick)?;
        Ok((l, r))
    }
}

/// Trimming never lengthens a fragment.
pub proof fn lemma_trim_len(f: FragView)
    ensures
        spec_trim(f).data.len() <= f.data.len(),
{
    let s = f.data;
    lemma_lead_fill_bounds(s, 0);
    let right = s.subrange(lead_fill(s, 0), s.len() as int);
    lemma_trail_fill_bounds(right, right.len() as int);
}

proof fn lemma_lead_fill_bounds(s: Seq<EntryView>, i: int)
    requires
        0 <= i <= s.len(),
    ensures
        i <= lead_fill(s, i) <= s.len(),
        lead_fill(s, i) < s.len() ==> !spec_is_filler(s[lead_fill(s, i)].lexeme),
    decreases s.len() - i,
{
    if i < s.len() && spec_is_filler(s[i].lexeme) {
        lemma_lead_fill_bounds(s, i + 1);
    }
}

proof fn lemma_trail_fill_bounds(s: Seq<EntryView>, j: int)
    requires
        0 <= j <= s.len(),
    ensures
        0 <= trail_fill(s, j) <= j,
        trail_fill(s, j) > 0 ==> !spec_is_filler(s[trail_fill(s, j) - 1].lexeme),
    decreases j,
{
    if 0 < j && spec_is_filler(s[j - 1].lexeme) {
        lemma_trail_fill_bounds(s, j - 1);
    }
}

/// Trimming a trimmed fragment changes nothing.
pub proof fn law_trim_idempotent(f: FragView)
    ensures
        spec_trim(spec_trim(f)) == spec_trim(f),
{
    let s = f.data;
    lemma_lead_fill_bounds(s, 0);
    let right = s.subrange(lead_fill(s, 0), s.len() as int);
    lemma_trail_fill_bounds(right, right.len() as int);
    let t = trim_seq(s);
    if t.len() > 0 {
        assert(t[0] == right[0]);
        assert(t[t.len() - 1] == right[trail_fill(right, right.len() as int) - 1]);
    }
    assert(lead_fill(t, 0) == 0);
    let r2 = t.subrange(0, t.len() as int);
    assert(r2 =~= t);
    assert(trail_fill(r2, r2.len() as int) == r2.len());
    assert(trim_seq(t) =~= t);
}

/// A fragment that starts and ends with a token that is no filler is
/// already trimmed.
pub(crate) proof fn lemma_trim_plain(s: Seq<EntryView>)
    requires
        s.len() > 0,
        !spec_is_filler(s[0].lexeme),
        !spec_is_filler(s.last().lexeme),
    ensures
        trim_seq(s) == s,
{
    assert(lead_fill(s, 0) == 0);
    let right = s.subrange(0, s.len() as int);
    assert(right =~= s);
    assert(trail_fill(right, right.len() as int) == right.len());
    assert(right.subrange(0, right.len() as int) =~= s);
}


} // verus!
