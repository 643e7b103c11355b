//! Convert source text into a sequence of tokens. Newlines and comments are
//! included, but spacing is converted into numerical ranges on the elements.
//!
//! Literals lose their syntax form here and are handled in an abstract
//! representation hence.

use std::ops::Range;
use vstd::prelude::*;
use vstd::string::StrSliceExecFns;

use crate::chars::{is_alphabetic, is_alphanumeric, is_whitespace, spec_is_alphabetic, spec_is_alphanumeric, spec_is_whitespace};
use crate::numeric::{numstart, spec_numstart, Numeric};
use crate::text::push_str;

verus! {

broadcast use vstd::string::group_string_axioms;

/// Kinds of parentheses
#[derive(Debug, Clone, Copy, PartialEq, Eq, Structural)]
pub enum PType {
    /// `()`
    Par,
    /// `[]`
    Sqr,
    /// `{}`
    Curl,
}

/// The kinds a macro placeholder can be of
#[derive(Debug, Clone, Copy, PartialEq, Eq, Structural)]
pub enum PHClass {
    /// A vectorial placeholder `..$name` or `...$name` (non-empty), with a
    /// priority
    Vec { nonzero: bool, prio: usize },
    /// A placeholder for a single expression, `$name`
    Scalar,
    /// A placeholder for a single name, `$_name`
    Name,
}

/// A placeholder in a macro
#[derive(Debug, PartialEq, Eq)]
pub struct Placeholder {
    /// The name that binds the placeholder
    pub name: String,
    /// What the placeholder matches
    pub class: PHClass,
}

/// The literals the built-in lexer plugins produce
#[derive(Debug, PartialEq, Eq)]
pub enum Atom {
    /// A number literal
    Num(Numeric),
    /// A string literal, escapes decoded
    Str(String),
}

/// A unit of syntax
#[derive(Debug, PartialEq, Eq)]
pub enum Lexeme {
    /// Literals
    Atom(Atom),
    /// Keyword or name
    Name(String),
    /// Macro operator `=`number`=>`
    Arrow(Numeric),
    /// `:=`
    Walrus,
    /// Line break
    BR,
    /// `::`
    NS,
    /// Left paren `([{`
    LP(PType),
    /// Right paren `)]}`
    RP(PType),
    /// `\`
    BS,
    /// `@`
    At,
    /// `:`
    Type,
    /// comment
    Comment(String),
    /// placeholder in a macro.
    Placeh(Placeholder),
}

/// A lexeme and the location where it was found
#[derive(Debug, PartialEq, Eq)]
pub struct Entry {
    /// the lexeme
    pub lexeme: Lexeme,
    /// the range in bytes
    pub range: Range<usize>,
}

/// Data returned from a lexer: the tokens it read and the text after them
#[derive(Debug)]
pub struct LexRes<'a> {
    /// Leftover text
    pub tail: &'a str,
    /// Lexemes extracted from the text
    pub tokens: Vec<Entry>,
}

/// The abstract value of a [Placeholder]
pub struct PlaceholderView {
    pub name: Seq<char>,
    pub class: PHClass,
}

/// The abstract value of an [Atom]
pub enum AtomView {
    Num(Numeric),
    Str(Seq<char>),
}

/// The abstract value of a [Lexeme]
pub enum LexemeView {
    Atom(AtomView),
    Name(Seq<char>),
    Arrow(Numeric),
    Walrus,
    BR,
    NS,
    LP(PType),
    RP(PType),
    BS,
    At,
    Type,
    Comment(Seq<char>),
    Placeh(PlaceholderView),
}

/// The abstract value of an [Entry]: its lexeme and its byte range.
pub struct EntryView {
    pub lexeme: LexemeView,
    pub start: nat,
    pub end: nat,
}

impl View for Placeholder {
    type V = PlaceholderView;

    open spec fn view(&self) -> PlaceholderView {
        PlaceholderView { name: self.name@, class: self.class }
    }
}

impl View for Atom {
    type V = AtomView;

    open spec fn view(&self) -> AtomView {
        match self {
            Atom::Num(n) => AtomView::Num(*n),
            Atom::Str(s) => AtomView::Str(s@),
        }
    }
}

impl View for Lexeme {
    type V = LexemeView;

    open spec fn view(&self) -> LexemeView {
        match self {
            Lexeme::Atom(a) => LexemeView::Atom(a@),
            Lexeme::Name(n) => LexemeView::Name(n@),
            Lexeme::Arrow(n) => LexemeView::Arrow(*n),
            Lexeme::Walrus => LexemeView::Walrus,
            Lexeme::BR => LexemeView::BR,
            Lexeme::NS => LexemeView::NS,
            Lexeme::LP(p) => LexemeView::LP(*p),
            Lexeme::RP(p) => LexemeView::RP(*p),
            Lexeme::BS => LexemeView::BS,
            Lexeme::At => LexemeView::At,
            Lexeme::Type => LexemeView::Type,
            Lexeme::Comment(c) => LexemeView::Comment(c@),
            Lexeme::Placeh(p) => LexemeView::Placeh(p@),
        }
    }
}

impl View for Entry {
    type V = EntryView;

    open spec fn view(&self) -> EntryView {
        EntryView { lexeme: self.lexeme@, start: self.range.start as nat, end: self.range.end as nat }
    }
}

/// The printed text of a lexeme where the lexeme alone fixes it; `None` for
/// literals, arrows and placeholders.
pub open spec fn spec_lexeme_text(l: LexemeView) -> Option<Seq<char>> {
    match l {
        LexemeView::Name(n) => Some(n),
        LexemeView::Walrus => Some(":="@),
        LexemeView::NS => Some("::"@),
        LexemeView::LP(PType::Par) => Some("("@),
        LexemeView::LP(PType::Sqr) => Some("["@),
        LexemeView::LP(PType::Curl) => Some("{"@),
        LexemeView::RP(PType::Par) => Some(")"@),
        LexemeView::RP(PType::Sqr) => Some("]"@),
        LexemeView::RP(PType::Curl) => Some("}"@),
        LexemeView::BR => Some("\n"@),
        LexemeView::BS => Some("\\"@),
        LexemeView::At => Some("@"@),
        LexemeView::Type => Some(":"@),
        LexemeView::Comment(t) => Some("--["@ + t + "]--"@),
        _ => None,
    }
}

impl Lexeme {
    /// Print the lexeme as it is written, where the lexeme alone fixes its
    /// text. Literals, arrows and placeholders are `None`: a number prints in
    /// floating point, and their other forms belong to the embedder.
    pub fn text(&self) -> (r: Option<String>)
        ensures
            match spec_lexeme_text(self@) {
                Some(t) => r matches Some(s) && s@ == t,
                None => r is None,
            },
    {
        match self {
            Lexeme::Name(n) => {
                let mut s = String::new();
                push_str(&mut s, n.as_str());
                Some(s)
            },
            Lexeme::Walrus => Some(":=".to_owned()),
            Lexeme::NS => Some("::".to_owned()),
            Lexeme::LP(PType::Par) => Some("(".to_owned()),
            Lexeme::LP(PType::Sqr) => Some("[".to_owned()),
            Lexeme::LP(PType::Curl) => Some("{".to_owned()),
            Lexeme::RP(PType::Par) => Some(")".to_owned()),
            Lexeme::RP(PType::Sqr) => Some("]".to_owned()),
            Lexeme::RP(PType::Curl) => Some("}".to_owned()),
            Lexeme::BR => Some("\n".to_owned()),
            Lexeme::BS => Some("\\".to_owned()),
            Lexeme::At => Some("@".to_owned()),
            Lexeme::Type => Some(":".to_owned()),
            Lexeme::Comment(t) => {
                let mut s = "--[".to_owned();
                push_str(&mut s, t.as_str());
                push_str(&mut s, "]--");
                Some(s)
            },
            _ => None,
        }
    }

    /// Whether two lexemes are the same token: the same kind and payload.
    pub fn strict_eq(&self, other: &Self) -> (r: bool)
        ensures
            r == (self@ == other@),
    {
        match (self, other) {
            (Lexeme::Atom(a), Lexeme::Atom(b)) => match (a, b) {
                (Atom::Num(x), Atom::Num(y)) => *x == *y,
                (Atom::Str(x), Atom::Str(y)) => *x == *y,
                _ => false,
            },
            (Lexeme::Name(x), Lexeme::Name(y)) => *x == *y,
            (Lexeme::Arrow(x), Lexeme::Arrow(y)) => *x == *y,
            (Lexeme::Walrus, Lexeme::Walrus) => true,
            (Lexeme::BR, Lexeme::BR) => true,
            (Lexeme::NS, Lexeme::NS) => true,
            (Lexeme::LP(x), Lexeme::LP(y)) => *x == *y,
            (Lexeme::RP(x), Lexeme::RP(y)) => *x == *y,
            (Lexeme::BS, Lexeme::BS) => true,
            (Lexeme::At, Lexeme::At) => true,
            (Lexeme::Type, Lexeme::Type) => true,
            (Lexeme::Comment(x), Lexeme::Comment(y)) => *x == *y,
            (Lexeme::Placeh(x), Lexeme::Placeh(y)) => x.name == y.name && x.class == y.class,
            _ => false,
        }
    }
}

impl Clone for Placeholder {
    fn clone(&self) -> (r: Self)
        ensures
            r@ == self@,
    {
        Placeholder { name: self.name.clone(), class: self.class }
    }
}

impl Clone for Atom {
    fn clone(&self) -> (r: Self)
        ensures
            r@ == self@,
    {
        match self {
            Atom::Num(n) => Atom::Num(*n),
            Atom::Str(s) => Atom::Str(s.clone()),
        }
    }
}

impl Clone for Lexeme {
    fn clone(&self) -> (r: Self)
        ensures
            r@ == self@,
    {
        match self {
            Lexeme::Atom(a) => Lexeme::Atom(a.clone()),
            Lexeme::Name(n) => Lexeme::Name(n.clone()),
            Lexeme::Arrow(n) => Lexeme::Arrow(*n),
            Lexeme::Walrus => Lexeme::Walrus,
            Lexeme::BR => Lexeme::BR,
            Lexeme::NS => Lexeme::NS,
            Lexeme::LP(p) => Lexeme::LP(*p),
            Lexeme::RP(p) => Lexeme::RP(*p),
            Lexeme::BS => Lexeme::BS,
            Lexeme::At => Lexeme::At,
            Lexeme::Type => Lexeme::Type,
            Lexeme::Comment(c) => Lexeme::Comment(c.clone()),
            Lexeme::Placeh(p) => Lexeme::Placeh(p.clone()),
        }
    }
}

impl Clone for Entry {
    fn clone(&self) -> (r: Self)
        ensures
            r@ == self@,
    {
        Entry {
            lexeme: self.lexeme.clone(),
            range: Range { start: self.range.start, end: self.range.end },
        }
    }
}

/// Comments and line breaks, the tokens a parser skips.
pub open spec fn spec_is_filler(l: LexemeView) -> bool {
    l is Comment || l is BR
}

impl Entry {
    /// Checks if the lexeme is a comment or line break
    pub fn is_filler(&self) -> (r: bool)
        ensures
            r == spec_is_filler(self.lexeme@),
    {
        match self.lexeme {
            Lexeme::Comment(_) | Lexeme::BR => true,
            _ => false,
        }
    }

    /// Create a new entry
    pub fn new(range: Range<usize>, lexeme: Lexeme) -> (r: Self)
        ensures
            r.range == range,
            r.lexeme == lexeme,
    {
        Entry { lexeme, range }
    }
}

/// Character filter that can appear in a keyword or name
pub open spec fn spec_namechar(c: char) -> bool {
    spec_is_alphanumeric(c) || c == '_'
}

/// Character filter that can start a name
pub open spec fn spec_namestart(c: char) -> bool {
    spec_is_alphabetic(c) || c == '_'
}

/// The punctuation that never belongs to an operator.
pub open spec fn is_reserved_punct(c: char) -> bool {
    c == '(' || c == ')' || c == '[' || c == ']' || c == '{' || c == '}' || c == ','
        || c == '\'' || c == '"' || c == '\\'
}

/// Character filter that can appear in operators.
pub open spec fn spec_opchar(c: char) -> bool {
    !spec_namestart(c) && !spec_numstart(c) && !spec_is_whitespace(c) && !is_reserved_punct(c)
}

/// Character filter that can appear in a keyword or name
pub fn namechar(c: char) -> (r: bool)
    ensures
        r == spec_namechar(c),
{
    is_alphanumeric(c) || c == '_'
}

/// Character filter that can start a name
pub fn namestart(c: char) -> (r: bool)
    ensures
        r == spec_namestart(c),
{
    is_alphabetic(c) || c == '_'
}

/// Character filter that can appear in operators.
pub fn opchar(c: char) -> (r: bool)
    ensures
        r == spec_opchar(c),
{
    !namestart(c) && !numstart(c) && !is_whitespace(c) && !(c == '(' || c == ')' || c == '['
        || c == ']' || c == '{' || c == '}' || c == ',' || c == '\'' || c == '"' || c == '\\')
}

/// Split off all characters from the beginning that match a filter
pub fn split_filter<'a, F: Fn(char) -> bool>(s: &'a str, pred: F) -> (r: (&'a str, &'a str))
    requires
        forall|c: char| call_requires(pred, (c,)),
    ensures
        r.0@ + r.1@ == s@,
        forall|i: int| 0 <= i < r.0@.len() ==> call_ensures(pred, (r.0@[i],), true),
        r.1@.len() > 0 ==> call_ensures(pred, (r.1@[0],), false),
{
    let n = s.unicode_len();
    let mut k: usize = 0;
    let mut done = false;
    for c in it: s.chars()
        invariant
            it.seq() == s@,
            n == s@.len(),
            k <= it.index(),
            !done ==> k == it.index(),
            forall|i: int| 0 <= i < k ==> call_ensures(pred, (s@[i],), true),
            done ==> k < s@.len() && call_ensures(pred, (s@[k as int],), false),
            forall|c: char| call_requires(pred, (c,)),
    {
        if !done {
            if pred(c) {
                k = k + 1;
            } else {
                done = true;
            }
        }
    }
    let head = s.substring_char(0, k);
    let tail = s.substring_char(k, n);
    assert(head@ + tail@ =~= s@);
    (head, tail)
}

} // verus!
