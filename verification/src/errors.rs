//! Errors produced by the parser.

use std::ops::Range;
use vstd::prelude::*;

use crate::frag::{lemma_trim_len, spec_pop, spec_trim, Frag, FragView};
use crate::lexer::{Entry, EntryView, Lexeme, LexemeView, PType};

verus! {

/// The reasons a token sequence fails to parse.
#[derive(Debug, PartialEq, Eq)]
pub enum ParseErrorKind {
    /// The line ends abruptly. Raised on the last token
    UnexpectedEOL(Lexeme),
    /// The line should have ended. Raised on last valid or first excess token
    ExpectedEOL,
    /// A name was expected
    ExpectedName(Lexeme),
    /// A specific lexeme was expected
    Expected {
        /// The lexemes that would have been acceptable
        expected: Vec<Lexeme>,
        /// Whether a name would also have been acceptable (multiname)
        or_name: bool,
        /// What was actually found
        found: Lexeme,
    },
    /// A token reserved for future use was found in the code
    ReservedToken(Lexeme),
    /// A token was found where it doesn't belong
    BadTokenInRegion {
        /// What was found
        lexeme: Lexeme,
        /// Human-readable name of the region where it should not appear
        region: &'static str,
    },
    /// Some construct was searched but not found
    NotFound(&'static str),
    /// `::` found on its own somewhere other than a general export
    LeadingNS,
    /// Parens don't pair up
    MisalignedParen(Lexeme),
    /// Export line contains a complex name
    NamespacedExport,
    /// Export line contains `*`
    GlobExport,
    /// A namespaced name was expected but a glob pattern or a branching
    /// multiname was found
    ExpectedSingleName,
    /// An exported line with a keyword whose line parser denies exports
    Unexportable(Lexeme),
}

/// A parse error and the byte range it concerns
#[derive(Debug, PartialEq, Eq)]
pub struct ParseError {
    /// Reason
    pub kind: ParseErrorKind,
    /// Location in bytes
    pub range: Range<usize>,
}

/// The abstract value of a [ParseErrorKind]
pub enum ParseErrorKindView {
    UnexpectedEOL(LexemeView),
    ExpectedEOL,
    ExpectedName(LexemeView),
    Expected { expected: Seq<LexemeView>, or_name: bool, found: LexemeView },
    ReservedToken(LexemeView),
    BadTokenInRegion { lexeme: LexemeView, region: Seq<char> },
    NotFound(Seq<char>),
    LeadingNS,
    MisalignedParen(LexemeView),
    NamespacedExport,
    GlobExport,
    ExpectedSingleName,
    Unexportable(LexemeView),
}

/// The abstract value of a [ParseError]
pub struct ParseErrorView {
    pub kind: ParseErrorKindView,
    pub start: nat,
    pub end: nat,
}

impl View for ParseErrorKind {
    type V = ParseErrorKindView;

    open spec fn view(&self) -> ParseErrorKindView {
        match self {
            ParseErrorKind::UnexpectedEOL(l) => ParseErrorKindView::UnexpectedEOL(l@),
            ParseErrorKind::ExpectedEOL => ParseErrorKindView::ExpectedEOL,
            ParseErrorKind::ExpectedName(l) => ParseErrorKindView::ExpectedName(l@),
            ParseErrorKind::Expected { expected, or_name, found } => ParseErrorKindView::Expected {
                expected: expected@.map_values(|l: Lexeme| l@),
                or_name: *or_name,
                found: found@,
            },
            ParseErrorKind::ReservedToken(l) => ParseErrorKindView::ReservedToken(l@),
            ParseErrorKind::BadTokenInRegion { lexeme, region } => ParseErrorKindView::BadTokenInRegion {
                lexeme: lexeme@,
                region: region@,
            },
            ParseErrorKind::NotFound(m) => ParseErrorKindView::NotFound(m@),
            ParseErrorKind::LeadingNS => ParseErrorKindView::LeadingNS,
            ParseErrorKind::MisalignedParen(l) => ParseErrorKindView::MisalignedParen(l@),
            ParseErrorKind::NamespacedExport => ParseErrorKindView::NamespacedExport,
            ParseErrorKind::GlobExport => ParseErrorKindView::GlobExport,
            ParseErrorKind::ExpectedSingleName => ParseErrorKindView::ExpectedSingleName,
            ParseErrorKind::Unexportable(l) => ParseErrorKindView::Unexportable(l@),
        }
    }
}

impl View for ParseError {
    type V = ParseErrorView;

    open spec fn view(&self) -> ParseErrorView {
        ParseErrorView { kind: self.kind@, start: self.range.start as nat, end: self.range.end as nat }
    }
}

/// An error of the given kind located at an entry.
pub open spec fn err_at(kind: ParseErrorKindView, e: EntryView) -> ParseErrorView {
    ParseErrorView { kind, start: e.start, end: e.end }
}

/// An [ParseErrorKind::UnexpectedEOL] raised on an entry.
pub open spec fn eol_at(e: EntryView) -> ParseErrorView {
    err_at(ParseErrorKindView::UnexpectedEOL(e.lexeme), e)
}

/// Build an error of the given kind located at an entry.
pub fn error_at(kind: ParseErrorKind, e: &Entry) -> (r: ParseError)
    ensures
        r@ == err_at(kind@, e@),
{
    ParseError { kind, range: Range { start: e.range.start, end: e.range.end } }
}

/// Raise [ParseErrorKind::UnexpectedEOL] on an entry.
pub fn unexpected_eol(e: &Entry) -> (r: ParseError)
    ensures
        r@ == eol_at(e@),
{
    error_at(ParseErrorKind::UnexpectedEOL(e.lexeme.clone()), e)
}

/// What [expect] gives: nothing if the entry holds the lexeme `l`, else an
/// [ParseErrorKind::Expected] error on the entry.
pub open spec fn spec_expect(l: LexemeView, e: EntryView) -> Result<(), ParseErrorView> {
    if e.lexeme == l {
        Ok(())
    } else {
        Err(
            err_at(
                ParseErrorKindView::Expected { expected: seq![l], or_name: false, found: e.lexeme },
                e,
            ),
        )
    }
}

/// What [expect_name] gives for an entry.
pub open spec fn spec_expect_name(e: EntryView) -> Result<Seq<char>, ParseErrorView> {
    match e.lexeme {
        LexemeView::Name(n) => Ok(n),
        other => Err(err_at(ParseErrorKindView::ExpectedName(other), e)),
    }
}

/// What [expect_block] gives for a fragment.
pub open spec fn spec_expect_block(f: FragView, typ: PType) -> Result<FragView, ParseErrorView> {
    match spec_pop(spec_trim(f)) {
        Err(e) => Err(e),
        Ok((lp, t)) => match spec_expect(LexemeView::LP(typ), lp) {
            Err(e) => Err(e),
            Ok(_) => if t.data.len() == 0 {
                Err(eol_at(t.fallback))
            } else {
                match spec_expect(LexemeView::RP(typ), t.data.last()) {
                    Err(e) => Err(e),
                    Ok(_) => Ok(spec_trim(FragView { fallback: t.fallback, data: t.data.drop_last() })),
                }
            },
        },
    }
}

/// Assert that the entry contains exactly the specified lexeme
pub fn expect(l: Lexeme, e: &Entry) -> (r: Result<(), ParseError>)
    ensures
        match r {
            Ok(_) => spec_expect(l@, e@) is Ok,
            Err(err) => spec_expect(l@, e@) == Err::<(), ParseErrorView>(err@),
        },
{
    if e.lexeme.strict_eq(&l) {
        return Ok(());
    }
    let found = e.lexeme.clone();
    let expected = vec![l];
    let kind = ParseErrorKind::Expected { expected, or_name: false, found };
    assert(kind@ == ParseErrorKindView::Expected { expected: seq![l@], or_name: false, found: e@.lexeme }) by {
        assert(expected@.map_values(|x: Lexeme| x@) =~= seq![l@]);
    }
    Err(error_at(kind, e))
}

/// Unwrap a name or operator.
pub fn expect_name(e: &Entry) -> (r: Result<String, ParseError>)
    ensures
        match r {
            Ok(n) => spec_expect_name(e@) == Ok::<Seq<char>, ParseErrorView>(n@),
            Err(err) => spec_expect_name(e@) == Err::<Seq<char>, ParseErrorView>(err@),
        },
{
    match &e.lexeme {
        Lexeme::Name(n) => Ok(n.clone()),
        other => Err(error_at(ParseErrorKind::ExpectedName(other.clone()), e)),
    }
}

/// Remove two parentheses of the given kind from the ends of the fragment
pub fn expect_block<'a>(tail: Frag<'a>, typ: PType) -> (r: Result<Frag<'a>, ParseError>)
    ensures
        match r {
            Ok(f) => spec_expect_block(tail@, typ) == Ok::<FragView, ParseErrorView>(f@)
                && f@.data.len() + 2 <= tail@.data.len(),
            Err(err) => spec_expect_block(tail@, typ) == Err::<FragView, ParseErrorView>(err@),
        },
{
    let trimmed = tail.trim();
    let (lp, rest) = trimmed.pop()?;
    expect(Lexeme::LP(typ), lp)?;
    let (rp, inner) = rest.pop_back()?;
    expect(Lexeme::RP(typ), rp)?;
    Ok(inner.trim())
}

/// A block stripped of its parentheses is shorter than the fragment.
pub proof fn lemma_expect_block_len(f: FragView, typ: PType)
    ensures
        spec_expect_block(f, typ) matches Ok(b) ==> b.data.len() + 2 <= f.data.len(),
{
    lemma_trim_len(f);
    match spec_pop(spec_trim(f)) {
        Ok((_, t)) => {
            if t.data.len() > 0 {
                lemma_trim_len(FragView { fallback: t.fallback, data: t.data.drop_last() });
            }
        },
        Err(_) => {},
    }
}

} // verus!
