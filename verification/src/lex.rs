//! The tokenizer: the meaning of a source text as a sequence of lexemes, and
//! the function that computes it.

use std::ops::Range;
use vstd::prelude::*;
use vstd::string::StrSliceExecFns;
use vstd::utf8::encode_utf8;

use crate::chars::{is_whitespace, spec_is_whitespace};
use crate::lexer::{AtomView, Entry, EntryView, LexRes, LexemeView, PHClass, PType, PlaceholderView, spec_lexeme_text, spec_namechar, spec_namestart, spec_opchar, namechar, namestart, opchar, Lexeme, Atom, Placeholder};
use crate::numeric::{all_decimal, decimal_from, law_decimal_literal, numchar, numstart, try_parse_num, spec_numchar, spec_numstart, spec_parse_num, NumErrorKind, Numeric};
use crate::string::{try_parse_string, spec_parse_string, StringErrorKind};
use crate::text::{byte_len, lemma_byte_len_encode, lemma_byte_len_prefix, lemma_byte_len_step, len_utf8, str_chars};

verus! {

broadcast use vstd::string::group_string_axioms;

/// Reasons why [lex] might fail
#[derive(Debug, Clone, Copy, PartialEq, Eq)]
pub enum LexErrorKind {
    /// A block comment was not closed with `]--`
    NoCommentEnd,
    /// A string literal was not closed with `"`
    NoStringEnd,
    /// A placeholder's priority has a decimal point or a negative exponent
    FloatPlacehPrio,
    /// A number literal could not be decoded
    Number(NumErrorKind),
    /// A string literal's escapes could not be decoded
    String(StringErrorKind),
    /// A `${` block within a template string was not closed with a balanced
    /// `}`
    UnclosedInterpolation,
    /// A `$"` template string was not closed with `"`
    NoTStringEnd,
}

/// Error produced by [lex]
#[derive(Debug, PartialEq, Eq)]
pub struct LexError {
    /// Reason
    pub kind: LexErrorKind,
    /// Location in bytes
    pub range: Range<usize>,
}

/// The runs of characters the lexer reads.
#[derive(Debug, Clone, Copy, PartialEq, Eq)]
pub enum CharClass {
    /// [namechar]
    Name,
    /// [crate::numeric::numchar]
    Num,
    /// [opchar]
    Op,
    /// anything but a line break
    Line,
}

pub open spec fn in_class(c: char, cls: CharClass) -> bool {
    match cls {
        CharClass::Name => spec_namechar(c),
        CharClass::Num => spec_numchar(c),
        CharClass::Op => spec_opchar(c),
        CharClass::Line => c != '\n',
    }
}

/// The end of the run of `cls` characters that starts at `i`.
pub open spec fn run_end(s: Seq<char>, i: int, cls: CharClass) -> int
    decreases s.len() - i,
{
    if 0 <= i < s.len() && in_class(s[i], cls) {
        run_end(s, i + 1, cls)
    } else {
        i
    }
}

/// The first character at or after `i` that is not spacing; line breaks are
/// not spacing.
pub open spec fn skip_blank(s: Seq<char>, i: int) -> int
    decreases s.len() - i,
{
    if 0 <= i < s.len() && spec_is_whitespace(s[i]) && s[i] != '\n' {
        skip_blank(s, i + 1)
    } else {
        i
    }
}

/// Whether `s[i]` exists and is `c`.
pub open spec fn at(s: Seq<char>, i: int, c: char) -> bool {
    0 <= i < s.len() && s[i] == c
}

/// The first `]--` at or after `i`.
pub open spec fn find_comment_end(s: Seq<char>, i: int) -> Option<int>
    decreases s.len() - i,
{
    if i < 0 || i + 3 > s.len() {
        None
    } else if at(s, i, ']') && at(s, i + 1, '-') && at(s, i + 2, '-') {
        Some(i)
    } else {
        find_comment_end(s, i + 1)
    }
}

/// The first `"` at or after `i`.
pub open spec fn find_quote(s: Seq<char>, i: int) -> Option<int>
    decreases s.len() - i,
{
    if i < 0 || i >= s.len() {
        None
    } else if s[i] == '"' {
        Some(i)
    } else {
        find_quote(s, i + 1)
    }
}

/// How many backslashes stand right before `q`, not counting any before `lo`.
pub open spec fn backslashes_before(s: Seq<char>, lo: int, q: int) -> nat
    decreases q - lo,
{
    if q > lo && 0 < q <= s.len() && s[q - 1] == '\\' {
        1 + backslashes_before(s, lo, q - 1)
    } else {
        0
    }
}

/// The quote that closes a string literal whose content starts at `d`,
/// searching from `from`: the first one preceded by an even number of
/// backslashes.
pub open spec fn closing_quote(s: Seq<char>, from: int, d: int) -> Option<int>
    decreases s.len() - from,
{
    match find_quote(s, from) {
        None => None,
        Some(q) => if q < from || q >= s.len() {
            None
        } else if backslashes_before(s, d, q) % 2 == 0 {
            Some(q)
        } else {
            closing_quote(s, q + 1, d)
        },
    }
}

/// The byte offset of character `k`.
pub open spec fn bp(s: Seq<char>, k: int) -> int {
    byte_len(s.take(k)) as int
}

/// An entry with the given lexeme and byte range.
pub open spec fn mk(l: LexemeView, a: int, b: int) -> EntryView {
    EntryView { lexeme: l, start: a as nat, end: b as nat }
}

/// An error with the given kind and byte range.
pub open spec fn lex_error(kind: LexErrorKind, a: int, b: int) -> LexError {
    LexError { kind, range: Range { start: a as usize, end: b as usize } }
}

/// What one lexer rule makes of the text at a position.
pub enum LexStep {
    /// The rule does not apply
    Skip,
    /// The text is outside what the lexer accepts
    Stuck,
    /// The rule applies and reports an error
    Fail(LexError),
    /// The rule produces a token and continues at the given character
    Token(EntryView, int),
}

/// A number literal starting at `j`.
pub open spec fn number_step(s: Seq<char>, j: int) -> LexStep {
    let e = run_end(s, j, CharClass::Num);
    match spec_parse_num(encode_utf8(s.subrange(j, e))) {
        None => LexStep::Stuck,
        Some(Err(err)) => LexStep::Fail(
            lex_error(
                LexErrorKind::Number(err.kind),
                bp(s, j) + err.range.start,
                bp(s, j) + err.range.end,
            ),
        ),
        Some(Ok(n)) => LexStep::Token(
            mk(LexemeView::Atom(AtomView::Num(n)), bp(s, j), bp(s, e)),
            e,
        ),
    }
}

/// A string literal whose opening quote is at `j`. The range of the token
/// ends after the closing quote and is as long as the literal's content.
pub open spec fn string_step(s: Seq<char>, j: int) -> LexStep {
    let d = j + 1;
    match closing_quote(s, d, d) {
        None => LexStep::Fail(lex_error(LexErrorKind::NoStringEnd, bp(s, d), bp(s, s.len() as int))),
        Some(q) => match spec_parse_string(s.subrange(d, q)) {
            None => LexStep::Stuck,
            Some(Err(e)) => LexStep::Fail(
                lex_error(
                    LexErrorKind::String(e.kind),
                    bp(s, d) + e.pos,
                    bp(s, d) + e.pos + 1,
                ),
            ),
            Some(Ok(t)) => LexStep::Token(
                mk(
                    LexemeView::Atom(AtomView::Str(t)),
                    bp(s, q + 1) - (bp(s, q) - bp(s, d)),
                    bp(s, q + 1),
                ),
                q + 1,
            ),
        },
    }
}

/// The fixed tokens, tried in this order, with their length in characters.
pub open spec fn lit_step(s: Seq<char>, j: int) -> Option<(LexemeView, int)> {
    if at(s, j, '\\') {
        Some((LexemeView::BS, 1))
    } else if at(s, j, '@') {
        Some((LexemeView::At, 1))
    } else if at(s, j, '(') {
        Some((LexemeView::LP(PType::Par), 1))
    } else if at(s, j, '[') {
        Some((LexemeView::LP(PType::Sqr), 1))
    } else if at(s, j, '{') {
        Some((LexemeView::LP(PType::Curl), 1))
    } else if at(s, j, ')') {
        Some((LexemeView::RP(PType::Par), 1))
    } else if at(s, j, ']') {
        Some((LexemeView::RP(PType::Sqr), 1))
    } else if at(s, j, '}') {
        Some((LexemeView::RP(PType::Curl), 1))
    } else if at(s, j, '\n') {
        Some((LexemeView::BR, 1))
    } else if at(s, j, ':') && at(s, j + 1, '=') {
        Some((LexemeView::Walrus, 2))
    } else if at(s, j, ':') && at(s, j + 1, ':') {
        Some((LexemeView::NS, 2))
    } else if at(s, j, ':') {
        Some((LexemeView::Type, 1))
    } else {
        None
    }
}

/// Comments, `--[ ... ]--` or `--` to the end of the line.
pub open spec fn comment_step(s: Seq<char>, j: int) -> LexStep {
    if at(s, j, '-') && at(s, j + 1, '-') && at(s, j + 2, '[') {
        match find_comment_end(s, j + 3) {
            None => LexStep::Fail(
                lex_error(LexErrorKind::NoCommentEnd, bp(s, j + 3), bp(s, s.len() as int)),
            ),
            Some(q) => LexStep::Token(
                mk(LexemeView::Comment(s.subrange(j + 3, q)), bp(s, j + 3), bp(s, q + 3)),
                q + 3,
            ),
        }
    } else if at(s, j, '-') && at(s, j + 1, '-') {
        let e = run_end(s, j + 2, CharClass::Line);
        LexStep::Token(mk(LexemeView::Comment(s.subrange(j + 2, e)), bp(s, j + 2), bp(s, e)), e)
    } else {
        LexStep::Skip
    }
}

/// The macro arrow `=prio=>`.
pub open spec fn arrow_step(s: Seq<char>, j: int) -> LexStep {
    if at(s, j, '=') && j + 1 < s.len() && spec_numstart(s[j + 1]) {
        let e = run_end(s, j + 1, CharClass::Num);
        if at(s, e, '=') && at(s, e + 1, '>') {
            match spec_parse_num(encode_utf8(s.subrange(j + 1, e))) {
                None => LexStep::Stuck,
                Some(Err(err)) => LexStep::Fail(
                    lex_error(
                        LexErrorKind::Number(err.kind),
                        bp(s, j + 1) + err.range.start,
                        bp(s, j + 1) + err.range.end,
                    ),
                ),
                Some(Ok(n)) => LexStep::Token(mk(LexemeView::Arrow(n), bp(s, j), bp(s, e + 2)), e + 2),
            }
        } else {
            LexStep::Skip
        }
    } else {
        LexStep::Skip
    }
}

/// A scalar or name placeholder, `$name` or `$_name`. The range starts one
/// byte before the name.
pub open spec fn placeholder_step(s: Seq<char>, j: int) -> LexStep {
    if at(s, j, '$') {
        let nameonly = at(s, j + 1, '_');
        let k = if nameonly {
            j + 2
        } else {
            j + 1
        };
        let e = run_end(s, k, CharClass::Name);
        if e > k {
            let class = if nameonly {
                PHClass::Name
            } else {
                PHClass::Scalar
            };
            LexStep::Token(
                mk(
                    LexemeView::Placeh(PlaceholderView { name: s.subrange(k, e), class }),
                    bp(s, k) - 1,
                    bp(s, e),
                ),
                e,
            )
        } else {
            LexStep::Skip
        }
    } else {
        LexStep::Skip
    }
}

/// A vectorial placeholder `..$name` or `...$name`, optionally followed by
/// `:prio`.
pub open spec fn vec_placeholder_step(s: Seq<char>, j: int) -> LexStep {
    if at(s, j, '.') && at(s, j + 1, '.') {
        let nonzero = at(s, j + 2, '.');
        let k = if nonzero {
            j + 3
        } else {
            j + 2
        };
        if at(s, k, '$') {
            let e = run_end(s, k + 1, CharClass::Name);
            if e > k + 1 {
                let name = s.subrange(k + 1, e);
                let e2 = run_end(s, e + 1, CharClass::Num);
                if at(s, e, ':') && e2 > e + 1 {
                    match spec_parse_num(encode_utf8(s.subrange(e + 1, e2))) {
                        None => LexStep::Stuck,
                        Some(Err(err)) => LexStep::Fail(
                            lex_error(
                                LexErrorKind::Number(err.kind),
                                bp(s, e + 1) + err.range.start,
                                bp(s, e + 1) + err.range.end,
                            ),
                        ),
                        Some(Ok(Numeric::Float(_))) => LexStep::Fail(
                            lex_error(LexErrorKind::FloatPlacehPrio, bp(s, e + 1), bp(s, e2)),
                        ),
                        Some(Ok(Numeric::Uint(p))) => LexStep::Token(
                            mk(
                                LexemeView::Placeh(
                                    PlaceholderView { name, class: PHClass::Vec { nonzero, prio: p } },
                                ),
                                bp(s, j),
                                bp(s, e2),
                            ),
                            e2,
                        ),
                    }
                } else {
                    LexStep::Token(
                        mk(
                            LexemeView::Placeh(
                                PlaceholderView { name, class: PHClass::Vec { nonzero, prio: 0 } },
                            ),
                            bp(s, j),
                            bp(s, e),
                        ),
                        e,
                    )
                }
            } else {
                LexStep::Skip
            }
        } else {
            LexStep::Skip
        }
    } else {
        LexStep::Skip
    }
}

/// A name or keyword, or failing that an operator.
pub open spec fn word_step(s: Seq<char>, j: int) -> LexStep {
    if spec_namestart(s[j]) {
        let e = run_end(s, j, CharClass::Name);
        LexStep::Token(mk(LexemeView::Name(s.subrange(j, e)), bp(s, j), bp(s, e)), e)
    } else if spec_opchar(s[j]) {
        let e = run_end(s, j, CharClass::Op);
        LexStep::Token(mk(LexemeView::Name(s.subrange(j, e)), bp(s, j), bp(s, e)), e)
    } else {
        LexStep::Stuck
    }
}

/// The token at `j`, trying the rules in the lexer's order: number and
/// string literals, the fixed tokens, `,`, comments, arrows, placeholders,
/// names and operators. A character no rule accepts (a lone `'`) is
/// [LexStep::Stuck].
#[verifier::opaque]
pub open spec fn lex_step(s: Seq<char>, j: int) -> LexStep {
    if spec_numstart(s[j]) {
        number_step(s, j)
    } else if s[j] == '"' {
        string_step(s, j)
    } else if lit_step(s, j) is Some {
        let (l, n) = lit_step(s, j)->0;
        LexStep::Token(mk(l, bp(s, j), bp(s, j + n)), j + n)
    } else if s[j] == ',' {
        LexStep::Token(mk(LexemeView::Name(seq![',']), bp(s, j), bp(s, j + 1)), j + 1)
    } else if !(comment_step(s, j) is Skip) {
        comment_step(s, j)
    } else if !(arrow_step(s, j) is Skip) {
        arrow_step(s, j)
    } else if !(placeholder_step(s, j) is Skip) {
        placeholder_step(s, j)
    } else if !(vec_placeholder_step(s, j) is Skip) {
        vec_placeholder_step(s, j)
    } else {
        word_step(s, j)
    }
}

/// The lexer plugins of a parsing context. At every token they are tried
/// in their order before the built-in rules, on the text from there on; the
/// first that accepts it decides the tokens there.
pub trait LexerPlugins {
    /// What the first plugin that accepts the start of `tail` makes of it:
    /// its tokens, whose ranges count from the start of the whole text,
    /// `offset` bytes before `tail`, and the number of characters of `tail`
    /// they take; `None` where no plugin accepts it
    spec fn spec_lex(&self, tail: Seq<char>, offset: nat) -> Option<
        Result<(Seq<EntryView>, nat), LexError>,
    >;

    /// Try the plugins in order on the start of `tail`
    fn lex(&self, tail: &str, offset: usize) -> (r: Option<Result<(Vec<Entry>, usize), LexError>>)
        ensures
            match r {
                None => self.spec_lex(tail@, offset as nat) is None,
                Some(Ok((t, n))) => self.spec_lex(tail@, offset as nat) == Some(
                    Ok::<(Seq<EntryView>, nat), LexError>((entry_views(t@), n as nat)),
                ),
                Some(Err(e)) => self.spec_lex(tail@, offset as nat) == Some(
                    Err::<(Seq<EntryView>, nat), LexError>(e),
                ),
            },
    ;
}

/// A context without lexer plugins: only the built-in rules apply.
pub struct NoLexerPlugins;

impl LexerPlugins for NoLexerPlugins {
    open spec fn spec_lex(&self, tail: Seq<char>, offset: nat) -> Option<
        Result<(Seq<EntryView>, nat), LexError>,
    > {
        None
    }

    fn lex(&self, tail: &str, offset: usize) -> (r: Option<Result<(Vec<Entry>, usize), LexError>>) {
        None
    }
}

/// Tokenize `s[i..]` after the tokens `toks`, trying the plugins `p` at
/// every token before the built-in rules. `None` where the text holds
/// something the lexer does not accept, or a plugin takes no character or
/// more than there are.
pub open spec fn lex_from_with<P: LexerPlugins>(p: P, s: Seq<char>, i: int, toks: Seq<EntryView>) -> Option<
    Result<Seq<EntryView>, LexError>,
>
    decreases s.len() - i,
{
    let j = skip_blank(s, i);
    if i < 0 || j < i || j > s.len() {
        None
    } else if j == s.len() {
        Some(Ok(toks))
    } else {
        match p.spec_lex(s.skip(j), bp(s, j) as nat) {
            Some(Err(e)) => Some(Err(e)),
            Some(Ok((ts, n))) => if 0 < n && j + n <= s.len() {
                lex_from_with(p, s, j + n, toks + ts)
            } else {
                None
            },
            None => match lex_step(s, j) {
                LexStep::Skip => None,
                LexStep::Stuck => None,
                LexStep::Fail(e) => Some(Err(e)),
                LexStep::Token(t, k) => if j < k <= s.len() {
                    lex_from_with(p, s, k, toks.push(t))
                } else {
                    None
                },
            },
        }
    }
}

/// Tokenize `s[i..]` after the tokens `toks` with the built-in rules alone.
/// `None` where the text holds something the lexer does not accept.
pub open spec fn lex_from(s: Seq<char>, i: int, toks: Seq<EntryView>) -> Option<
    Result<Seq<EntryView>, LexError>,
> {
    lex_from_with(NoLexerPlugins, s, i, toks)
}

/// The views of a list of entries.
pub open spec fn entry_views(v: Seq<Entry>) -> Seq<EntryView> {
    v.map_values(|e: Entry| e@)
}


/// What one lexer rule computed: nothing, an error, or a token and the
/// character to continue at.
pub enum ExecStep {
    Skip,
    Stuck,
    Fail(LexError),
    Token(Entry, usize),
}

/// `r` is what the rule `st` prescribes.
pub open spec fn step_matches(r: ExecStep, st: LexStep) -> bool {
    match (r, st) {
        (ExecStep::Skip, LexStep::Skip) => true,
        (ExecStep::Stuck, LexStep::Stuck) => true,
        (ExecStep::Fail(e1), LexStep::Fail(e2)) => e1 == e2,
        (ExecStep::Token(e, k), LexStep::Token(v, k2)) => e@ == v && k as int == k2,
        _ => false,
    }
}

/// The source text, its characters and their byte offsets agree.
pub open spec fn lex_input(data: &str, s: Seq<char>, offs: Seq<usize>) -> bool {
    &&& s == data@
    &&& byte_len(s) <= usize::MAX
    &&& offs.len() == s.len() + 1
    &&& forall|k: int| 0 <= k <= s.len() ==> #[trigger] offs[k] == bp(s, k)
}

fn in_class_exec(c: char, cls: CharClass) -> (r: bool)
    ensures
        r == in_class(c, cls),
{
    match cls {
        CharClass::Name => namechar(c),
        CharClass::Num => numchar(c),
        CharClass::Op => opchar(c),
        CharClass::Line => c != '\n',
    }
}

proof fn lemma_run_end_bounds(s: Seq<char>, i: int, cls: CharClass)
    requires
        0 <= i <= s.len(),
    ensures
        i <= run_end(s, i, cls) <= s.len(),
    decreases s.len() - i,
{
    if i < s.len() && in_class(s[i], cls) {
        lemma_run_end_bounds(s, i + 1, cls);
    }
}

fn run_end_exec(s: &Vec<char>, i: usize, cls: CharClass) -> (r: usize)
    requires
        i <= s@.len(),
    ensures
        r == run_end(s@, i as int, cls),
        i <= r <= s@.len(),
{
    proof {
        lemma_run_end_bounds(s@, i as int, cls);
    }
    let mut k = i;
    while k < s.len() && in_class_exec(s[k], cls)
        invariant
            i <= k <= s@.len(),
            run_end(s@, i as int, cls) == run_end(s@, k as int, cls),
        decreases s@.len() - k,
    {
        k = k + 1;
    }
    k
}

proof fn lemma_skip_blank_bounds(s: Seq<char>, i: int)
    requires
        0 <= i <= s.len(),
    ensures
        i <= skip_blank(s, i) <= s.len(),
    decreases s.len() - i,
{
    if i < s.len() && spec_is_whitespace(s[i]) && s[i] != '\n' {
        lemma_skip_blank_bounds(s, i + 1);
    }
}

fn skip_blank_exec(s: &Vec<char>, i: usize) -> (r: usize)
    requires
        i <= s@.len(),
    ensures
        r == skip_blank(s@, i as int),
        i <= r <= s@.len(),
{
    proof {
        lemma_skip_blank_bounds(s@, i as int);
    }
    let mut k = i;
    while k < s.len() && is_whitespace(s[k]) && s[k] != '\n'
        invariant
            i <= k <= s@.len(),
            skip_blank(s@, i as int) == skip_blank(s@, k as int),
        decreases s@.len() - k,
    {
        k = k + 1;
    }
    k
}

proof fn lemma_find_comment_end_bounds(s: Seq<char>, i: int)
    requires
        0 <= i,
    ensures
        find_comment_end(s, i) matches Some(q) ==> i <= q && q + 3 <= s.len(),
    decreases s.len() - i,
{
    if i + 3 <= s.len() && !(at(s, i, ']') && at(s, i + 1, '-') && at(s, i + 2, '-')) {
        lemma_find_comment_end_bounds(s, i + 1);
    }
}

fn find_comment_end_exec(s: &Vec<char>, i: usize) -> (r: Option<usize>)
    requires
        i <= s@.len(),
    ensures
        match r {
            None => find_comment_end(s@, i as int) is None,
            Some(q) => find_comment_end(s@, i as int) == Some(q as int) && i <= q && q + 3
                <= s@.len(),
        },
{
    proof {
        lemma_find_comment_end_bounds(s@, i as int);
    }
    let n = s.len();
    let mut k = i;
    while n >= 3 && k <= n - 3
        invariant
            i <= k,
            n == s@.len(),
            find_comment_end(s@, i as int) == find_comment_end(s@, k as int),
        decreases n - k,
    {
        if s[k] == ']' && s[k + 1] == '-' && s[k + 2] == '-' {
            return Some(k);
        }
        k = k + 1;
    }
    None
}

proof fn lemma_find_quote_bounds(s: Seq<char>, i: int)
    requires
        0 <= i,
    ensures
        find_quote(s, i) matches Some(q) ==> i <= q < s.len() && s[q] == '"',
    decreases s.len() - i,
{
    if i < s.len() && s[i] != '"' {
        lemma_find_quote_bounds(s, i + 1);
    }
}

proof fn lemma_closing_quote_bounds(s: Seq<char>, from: int, d: int)
    requires
        0 <= from,
    ensures
        closing_quote(s, from, d) matches Some(q) ==> from <= q < s.len() && s[q] == '"',
    decreases s.len() - from,
{
    lemma_find_quote_bounds(s, from);
    match find_quote(s, from) {
        None => {},
        Some(q) => if q < from || q >= s.len() {
        } else if backslashes_before(s, d, q) % 2 == 0 {
        } else {
            lemma_closing_quote_bounds(s, q + 1, d);
        },
    }
}

fn closing_quote_exec(s: &Vec<char>, d: usize) -> (r: Option<usize>)
    requires
        d <= s@.len(),
    ensures
        match r {
            None => closing_quote(s@, d as int, d as int) is None,
            Some(q) => closing_quote(s@, d as int, d as int) == Some(q as int) && d <= q < s@.len(),
        },
{
    proof {
        lemma_closing_quote_bounds(s@, d as int, d as int);
    }
    let n = s.len();
    let mut from = d;
    loop
        invariant
            d <= from <= n,
            n == s@.len(),
            closing_quote(s@, d as int, d as int) == closing_quote(s@, from as int, d as int),
        decreases n - from,
    {
        proof {
            lemma_find_quote_bounds(s@, from as int);
        }
        let mut q = from;
        while q < n && s[q] != '"'
            invariant
                from <= q <= n,
                n == s@.len(),
                find_quote(s@, from as int) == find_quote(s@, q as int),
            decreases n - q,
        {
            q = q + 1;
        }
        if q >= n {
            return None;
        }
        let mut count: usize = 0;
        let mut k = q;
        while k > d && s[k - 1] == '\\'
            invariant
                d <= k <= q < n,
                n == s@.len(),
                count + k == q,
                backslashes_before(s@, d as int, q as int) == count + backslashes_before(
                    s@,
                    d as int,
                    k as int,
                ),
            decreases k,
        {
            count = count + 1;
            k = k - 1;
        }
        if count % 2 == 0 {
            return Some(q);
        }
        from = q + 1;
    }
}

fn prefix_offsets(s: &Vec<char>) -> (r: Vec<usize>)
    requires
        byte_len(s@) <= usize::MAX,
    ensures
        r@.len() == s@.len() + 1,
        forall|k: int| 0 <= k <= s@.len() ==> #[trigger] r@[k] == bp(s@, k),
{
    let n = s.len();
    let mut offs: Vec<usize> = Vec::new();
    offs.push(0);
    assert(s@.take(0) =~= Seq::<char>::empty());
    let mut acc: usize = 0;
    let mut i: usize = 0;
    while i < n
        invariant
            i <= n,
            n == s@.len(),
            byte_len(s@) <= usize::MAX,
            offs@.len() == i + 1,
            acc == bp(s@, i as int),
            forall|k: int| 0 <= k <= i ==> #[trigger] offs@[k] == bp(s@, k),
        decreases n - i,
    {
        proof {
            lemma_byte_len_step(s@, i as int);
            lemma_byte_len_prefix(s@, i + 1);
        }
        acc = acc + len_utf8(s[i]);
        offs.push(acc);
        i = i + 1;
    }
    offs
}

/// The characters of a text and the byte offset of each of them.
pub(crate) fn lex_setup(data: &str) -> (r: (Vec<char>, Vec<usize>))
    ensures
        lex_input(data, r.0@, r.1@),
{
    let s = str_chars(data);
    let bytes = data.as_bytes();
    let blen = bytes.len();
    proof {
        lemma_byte_len_encode(s@);
        assert(bytes@.len() == blen);
    }
    let offs = prefix_offsets(&s);
    (s, offs)
}

/// The byte length of `s[a..b]` is the difference of the offsets.
pub(crate) proof fn lemma_sub_bytes(s: Seq<char>, a: int, b: int)
    requires
        0 <= a <= b <= s.len(),
    ensures
        encode_utf8(s.subrange(a, b)).len() == bp(s, b) - bp(s, a),
        bp(s, a) <= bp(s, b) <= byte_len(s),
{
    assert(s.take(b) =~= s.take(a) + s.subrange(a, b));
    crate::text::lemma_byte_len_concat(s.take(a), s.subrange(a, b));
    lemma_byte_len_encode(s.subrange(a, b));
    lemma_byte_len_prefix(s, b);
}

/// ASCII characters take one byte.
pub(crate) proof fn lemma_ascii_step(s: Seq<char>, k: int)
    requires
        0 <= k < s.len(),
        (s[k] as u32) < 0x80,
    ensures
        bp(s, k + 1) == bp(s, k) + 1,
{
    lemma_byte_len_step(s, k);
}

pub(crate) fn lex_number(data: &str, s: &Vec<char>, offs: &Vec<usize>, j: usize) -> (r: ExecStep)
    requires
        lex_input(data, s@, offs@),
        j < s@.len(),
    ensures
        step_matches(r, number_step(s@, j as int)),
        r matches ExecStep::Token(_, k) ==> k <= s@.len(),
{
    let e = run_end_exec(s, j, CharClass::Num);
    let num = data.substring_char(j, e);
    proof {
        lemma_sub_bytes(s@, j as int, e as int);
        crate::numeric::lemma_parse_num_err_range(encode_utf8(num@));
    }
    match try_parse_num(num) {
        None => ExecStep::Stuck,
        Some(Err(err)) => ExecStep::Fail(
            LexError {
                kind: LexErrorKind::Number(err.kind),
                range: Range { start: offs[j] + err.range.start, end: offs[j] + err.range.end },
            },
        ),
        Some(Ok(n)) => ExecStep::Token(
            Entry { lexeme: Lexeme::Atom(Atom::Num(n)), range: Range { start: offs[j], end: offs[e] } },
            e,
        ),
    }
}

pub(crate) fn lex_string(data: &str, s: &Vec<char>, offs: &Vec<usize>, j: usize) -> (r: ExecStep)
    requires
        lex_input(data, s@, offs@),
        j < s@.len(),
    ensures
        step_matches(r, string_step(s@, j as int)),
        r matches ExecStep::Token(_, k) ==> k <= s@.len(),
{
    let n = s.len();
    let d = j + 1;
    match closing_quote_exec(s, d) {
        None => ExecStep::Fail(
            LexError { kind: LexErrorKind::NoStringEnd, range: Range { start: offs[d], end: offs[n] } },
        ),
        Some(q) => {
            let body = data.substring_char(d, q);
            proof {
                lemma_sub_bytes(s@, d as int, q as int);
                lemma_sub_bytes(s@, q as int, (q + 1) as int);
                lemma_byte_len_encode(body@);
                crate::string::lemma_decode_err_pos(body@, 0, Seq::empty());
            }
            match try_parse_string(body) {
                None => ExecStep::Stuck,
                Some(Err(e)) => ExecStep::Fail(
                    LexError {
                        kind: LexErrorKind::String(e.kind),
                        range: Range { start: offs[d] + e.pos, end: offs[d] + e.pos + 1 },
                    },
                ),
                Some(Ok(t)) => ExecStep::Token(
                    Entry {
                        lexeme: Lexeme::Atom(Atom::Str(t)),
                        range: Range { start: offs[q + 1] - (offs[q] - offs[d]), end: offs[q + 1] },
                    },
                    q + 1,
                ),
            }
        },
    }
}

fn lex_lit(s: &Vec<char>, offs: &Vec<usize>, j: usize) -> (r: Option<(Lexeme, usize)>)
    requires
        j < s@.len(),
    ensures
        match r {
            None => lit_step(s@, j as int) is None,
            Some((l, n)) => lit_step(s@, j as int) == Some((l@, n as int)) && j + n <= s@.len(),
        },
{
    let c = s[j];
    let next: Option<char> = if s.len() - j > 1 {
        Some(s[j + 1])
    } else {
        None
    };
    if c == '\\' {
        Some((Lexeme::BS, 1))
    } else if c == '@' {
        Some((Lexeme::At, 1))
    } else if c == '(' {
        Some((Lexeme::LP(PType::Par), 1))
    } else if c == '[' {
        Some((Lexeme::LP(PType::Sqr), 1))
    } else if c == '{' {
        Some((Lexeme::LP(PType::Curl), 1))
    } else if c == ')' {
        Some((Lexeme::RP(PType::Par), 1))
    } else if c == ']' {
        Some((Lexeme::RP(PType::Sqr), 1))
    } else if c == '}' {
        Some((Lexeme::RP(PType::Curl), 1))
    } else if c == '\n' {
        Some((Lexeme::BR, 1))
    } else if c == ':' && next == Some('=') {
        Some((Lexeme::Walrus, 2))
    } else if c == ':' && next == Some(':') {
        Some((Lexeme::NS, 2))
    } else if c == ':' {
        Some((Lexeme::Type, 1))
    } else {
        None
    }
}

fn lex_comment(data: &str, s: &Vec<char>, offs: &Vec<usize>, j: usize) -> (r: ExecStep)
    requires
        lex_input(data, s@, offs@),
        j < s@.len(),
    ensures
        step_matches(r, comment_step(s@, j as int)),
{
    let n = s.len();
    if n - j > 2 && s[j] == '-' && s[j + 1] == '-' && s[j + 2] == '[' {
        match find_comment_end_exec(s, j + 3) {
            None => ExecStep::Fail(
                LexError {
                    kind: LexErrorKind::NoCommentEnd,
                    range: Range { start: offs[j + 3], end: offs[n] },
                },
            ),
            Some(q) => {
                let note = data.substring_char(j + 3, q).to_owned();
                ExecStep::Token(
                    Entry {
                        lexeme: Lexeme::Comment(note),
                        range: Range { start: offs[j + 3], end: offs[q + 3] },
                    },
                    q + 3,
                )
            },
        }
    } else if n - j > 1 && s[j] == '-' && s[j + 1] == '-' {
        let e = run_end_exec(s, j + 2, CharClass::Line);
        let note = data.substring_char(j + 2, e).to_owned();
        ExecStep::Token(
            Entry { lexeme: Lexeme::Comment(note), range: Range { start: offs[j + 2], end: offs[e] } },
            e,
        )
    } else {
        ExecStep::Skip
    }
}

fn lex_arrow(data: &str, s: &Vec<char>, offs: &Vec<usize>, j: usize) -> (r: ExecStep)
    requires
        lex_input(data, s@, offs@),
        j < s@.len(),
    ensures
        step_matches(r, arrow_step(s@, j as int)),
{
    let n = s.len();
    if s[j] == '=' && j + 1 < n && numstart(s[j + 1]) {
        let e = run_end_exec(s, j + 1, CharClass::Num);
        if e < n && n - e > 1 && s[e] == '=' && s[e + 1] == '>' {
            let num = data.substring_char(j + 1, e);
            proof {
                lemma_sub_bytes(s@, (j + 1) as int, e as int);
                lemma_sub_bytes(s@, e as int, (e + 2) as int);
                crate::numeric::lemma_parse_num_err_range(encode_utf8(num@));
            }
            match try_parse_num(num) {
                None => ExecStep::Stuck,
                Some(Err(err)) => ExecStep::Fail(
                    LexError {
                        kind: LexErrorKind::Number(err.kind),
                        range: Range {
                            start: offs[j + 1] + err.range.start,
                            end: offs[j + 1] + err.range.end,
                        },
                    },
                ),
                Some(Ok(prio)) => ExecStep::Token(
                    Entry { lexeme: Lexeme::Arrow(prio), range: Range { start: offs[j], end: offs[e + 2] } },
                    e + 2,
                ),
            }
        } else {
            ExecStep::Skip
        }
    } else {
        ExecStep::Skip
    }
}

fn lex_placeholder(data: &str, s: &Vec<char>, offs: &Vec<usize>, j: usize) -> (r: ExecStep)
    requires
        lex_input(data, s@, offs@),
        j < s@.len(),
    ensures
        step_matches(r, placeholder_step(s@, j as int)),
{
    let n = s.len();
    if s[j] == '$' {
        let nameonly = j + 1 < n && s[j + 1] == '_';
        let k = if nameonly {
            j + 2
        } else {
            j + 1
        };
        let e = run_end_exec(s, k, CharClass::Name);
        if e > k {
            proof {
                lemma_sub_bytes(s@, (k - 1) as int, k as int);
                vstd::utf8::char_is_scalar(s@[k - 1]);
            }
            let class = if nameonly {
                PHClass::Name
            } else {
                PHClass::Scalar
            };
            let name = data.substring_char(k, e).to_owned();
            ExecStep::Token(
                Entry {
                    lexeme: Lexeme::Placeh(Placeholder { name, class }),
                    range: Range { start: offs[k] - 1, end: offs[e] },
                },
                e,
            )
        } else {
            ExecStep::Skip
        }
    } else {
        ExecStep::Skip
    }
}

fn lex_vec_placeholder(data: &str, s: &Vec<char>, offs: &Vec<usize>, j: usize) -> (r: ExecStep)
    requires
        lex_input(data, s@, offs@),
        j < s@.len(),
    ensures
        step_matches(r, vec_placeholder_step(s@, j as int)),
{
    let n = s.len();
    if j + 1 < n && s[j] == '.' && s[j + 1] == '.' {
        let nonzero = j + 2 < n && s[j + 2] == '.';
        let k = if nonzero {
            j + 3
        } else {
            j + 2
        };
        if k < n && s[k] == '$' {
            let e = run_end_exec(s, k + 1, CharClass::Name);
            if e > k + 1 {
                let name = data.substring_char(k + 1, e).to_owned();
                let e2 = if e < n {
                    run_end_exec(s, e + 1, CharClass::Num)
                } else {
                    e
                };
                proof {
                    if e >= n {
                        assert(run_end(s@, e + 1, CharClass::Num) == e + 1);
                    }
                }
                if e < n && s[e] == ':' && e2 > e + 1 {
                    let num = data.substring_char(e + 1, e2);
                    proof {
                        lemma_sub_bytes(s@, (e + 1) as int, e2 as int);
                        crate::numeric::lemma_parse_num_err_range(encode_utf8(num@));
                    }
                    match try_parse_num(num) {
                        None => ExecStep::Stuck,
                        Some(Err(err)) => ExecStep::Fail(
                            LexError {
                                kind: LexErrorKind::Number(err.kind),
                                range: Range {
                                    start: offs[e + 1] + err.range.start,
                                    end: offs[e + 1] + err.range.end,
                                },
                            },
                        ),
                        Some(Ok(Numeric::Float(_))) => ExecStep::Fail(
                            LexError {
                                kind: LexErrorKind::FloatPlacehPrio,
                                range: Range { start: offs[e + 1], end: offs[e2] },
                            },
                        ),
                        Some(Ok(Numeric::Uint(p))) => ExecStep::Token(
                            Entry {
                                lexeme: Lexeme::Placeh(
                                    Placeholder { name, class: PHClass::Vec { nonzero, prio: p } },
                                ),
                                range: Range { start: offs[j], end: offs[e2] },
                            },
                            e2,
                        ),
                    }
                } else {
                    ExecStep::Token(
                        Entry {
                            lexeme: Lexeme::Placeh(
                                Placeholder { name, class: PHClass::Vec { nonzero, prio: 0 } },
                            ),
                            range: Range { start: offs[j], end: offs[e] },
                        },
                        e,
                    )
                }
            } else {
                ExecStep::Skip
            }
        } else {
            ExecStep::Skip
        }
    } else {
        ExecStep::Skip
    }
}

fn lex_word(data: &str, s: &Vec<char>, offs: &Vec<usize>, j: usize) -> (r: ExecStep)
    requires
        lex_input(data, s@, offs@),
        j < s@.len(),
    ensures
        step_matches(r, word_step(s@, j as int)),
{
    if !namestart(s[j]) && !opchar(s[j]) {
        return ExecStep::Stuck;
    }
    let cls = if namestart(s[j]) {
        CharClass::Name
    } else {
        CharClass::Op
    };
    let e = run_end_exec(s, j, cls);
    let name = data.substring_char(j, e).to_owned();
    ExecStep::Token(
        Entry { lexeme: Lexeme::Name(name), range: Range { start: offs[j], end: offs[e] } },
        e,
    )
}

fn lex_step_exec(data: &str, s: &Vec<char>, offs: &Vec<usize>, j: usize) -> (r: ExecStep)
    requires
        lex_input(data, s@, offs@),
        j < s@.len(),
    ensures
        step_matches(r, lex_step(s@, j as int)),
{
    let c = s[j];
    let n = s.len();
    proof {
        reveal(lex_step);
    }
    if numstart(c) {
        return lex_number(data, s, offs, j);
    }
    if c == '"' {
        return lex_string(data, s, offs, j);
    }
    if let Some((l, w)) = lex_lit(s, offs, j) {
        return ExecStep::Token(Entry { lexeme: l, range: Range { start: offs[j], end: offs[j + w] } }, j + w);
    }
    if c == ',' {
        let comma = data.substring_char(j, j + 1).to_owned();
        assert(comma@ =~= seq![',']);
        return ExecStep::Token(
            Entry { lexeme: Lexeme::Name(comma), range: Range { start: offs[j], end: offs[j + 1] } },
            j + 1,
        );
    }
    let r = lex_comment(data, s, offs, j);
    if !matches!(r, ExecStep::Skip) {
        return r;
    }
    let r = lex_arrow(data, s, offs, j);
    if !matches!(r, ExecStep::Skip) {
        return r;
    }
    let r = lex_placeholder(data, s, offs, j);
    if !matches!(r, ExecStep::Skip) {
        return r;
    }
    let r = lex_vec_placeholder(data, s, offs, j);
    if !matches!(r, ExecStep::Skip) {
        return r;
    }
    lex_word(data, s, offs, j)
}

/// Convert source code to a flat list of tokens, appended to `tokens`,
/// trying the plugins `p` at every token before the built-in rules. Byte
/// ranges are counted from the start of `data`. `None` where the text holds
/// something the lexer does not accept, or a plugin takes no character or
/// more than there are.
pub fn try_lex_with<P: LexerPlugins>(tokens: Vec<Entry>, data: &str, p: &P) -> (r: Option<
    Result<Vec<Entry>, LexError>,
>)
    ensures
        match r {
            None => lex_from_with(*p, data@, 0, entry_views(tokens@)) is None,
            Some(Ok(t)) => lex_from_with(*p, data@, 0, entry_views(tokens@)) == Some(
                Ok::<Seq<EntryView>, LexError>(entry_views(t@)),
            ),
            Some(Err(e)) => lex_from_with(*p, data@, 0, entry_views(tokens@)) == Some(
                Err::<Seq<EntryView>, LexError>(e),
            ),
        },
{
    let (s, offs) = lex_setup(data);
    let n = s.len();
    let ghost goal = lex_from_with(*p, data@, 0, entry_views(tokens@));
    let mut toks = tokens;
    let mut i: usize = 0;
    loop
        invariant
            i <= n,
            n == s@.len(),
            lex_input(data, s@, offs@),
            lex_from_with(*p, s@, i as int, entry_views(toks@)) == goal,
            goal == lex_from_with(*p, data@, 0, entry_views(tokens@)),
        decreases n - i,
    {
        let j = skip_blank_exec(&s, i);
        if j == n {
            assert(lex_from_with(*p, s@, i as int, entry_views(toks@)) == Some(
                Ok::<Seq<EntryView>, LexError>(entry_views(toks@)),
            ));
            return Some(Ok(toks));
        }
        let tail = data.substring_char(j, n);
        assert(tail@ =~= s@.skip(j as int));
        match p.lex(tail, offs[j]) {
            Some(Err(e)) => {
                return Some(Err(e));
            },
            Some(Ok((more, c))) => {
                if c == 0 || c > n - j {
                    return None;
                }
                let ghost old_toks = toks@;
                let mut more = more;
                let ghost mv = more@;
                toks.append(&mut more);
                assert(entry_views(toks@) =~= entry_views(old_toks) + entry_views(mv));
                i = j + c;
            },
            None => {
                match lex_step_exec(data, &s, &offs, j) {
                    ExecStep::Skip => {
                        return None;
                    },
                    ExecStep::Stuck => {
                        return None;
                    },
                    ExecStep::Fail(e) => {
                        return Some(Err(e));
                    },
                    ExecStep::Token(t, k) => {
                        if k <= j || k > n {
                            return None;
                        }
                        let ghost old_toks = toks@;
                        toks.push(t);
                        assert(entry_views(toks@) =~= entry_views(old_toks).push(t@));
                        i = k;
                    },
                }
            },
        }
    }
}

/// Convert source code to a flat list of tokens, appended to `tokens`. Byte
/// ranges are counted from the start of `data`. `None` where the text holds
/// something the lexer does not accept: a `'`, a number literal with an
/// empty digit run or the exponent `-2^31`, or a string literal whose
/// escapes end in a lone backslash.
pub fn try_lex(tokens: Vec<Entry>, data: &str) -> (r: Option<Result<Vec<Entry>, LexError>>)
    ensures
        match r {
            None => lex_from(data@, 0, entry_views(tokens@)) is None,
            Some(Ok(t)) => lex_from(data@, 0, entry_views(tokens@)) == Some(
                Ok::<Seq<EntryView>, LexError>(entry_views(t@)),
            ),
            Some(Err(e)) => lex_from(data@, 0, entry_views(tokens@)) == Some(
                Err::<Seq<EntryView>, LexError>(e),
            ),
        },
{
    try_lex_with(tokens, data, &NoLexerPlugins)
}

/// A callback asked between tokens, on the text from the next token on,
/// whether the lexer stops there and leaves the rest of the text unread. It
/// may keep count of what it has seen.
pub trait LexBail: Sized {
    /// The callback's state after it was asked about `tail`, and its answer:
    /// stop, go on, or fail
    spec fn spec_stop(self, tail: Seq<char>) -> (Self, Result<bool, LexError>);

    /// Ask the callback whether to stop before `tail`
    fn stop(&mut self, tail: &str) -> (r: Result<bool, LexError>)
        ensures
            (*final(self), r) == old(self).spec_stop(tail@),
    ;
}

/// A callback that never stops the lexer.
pub struct NeverBail;

impl LexBail for NeverBail {
    open spec fn spec_stop(self, tail: Seq<char>) -> (Self, Result<bool, LexError>) {
        (self, Ok(false))
    }

    fn stop(&mut self, tail: &str) -> (r: Result<bool, LexError>) {
        Ok(false)
    }
}

/// Tokenize `s[i..]` after `toks` with the plugins `p`, asking the callback
/// `b` before every token whether to stop: the tokens and the character at
/// which lexing stopped, which is the end of the text where nothing stopped
/// it. `None` where the text holds something the lexer does not accept, or
/// a plugin takes no character or more than there are.
pub open spec fn lex_bail_from<P: LexerPlugins, B: LexBail>(
    p: P,
    b: B,
    s: Seq<char>,
    i: int,
    toks: Seq<EntryView>,
) -> Option<Result<(Seq<EntryView>, int), LexError>>
    decreases s.len() - i,
{
    let j = skip_blank(s, i);
    if i < 0 || j < i || j > s.len() {
        None
    } else {
        let (b2, answer) = b.spec_stop(s.skip(j));
        match answer {
            Err(e) => Some(Err(e)),
            Ok(true) => Some(Ok((toks, j))),
            Ok(false) => if j == s.len() {
                Some(Ok((toks, j)))
            } else {
                match p.spec_lex(s.skip(j), bp(s, j) as nat) {
                    Some(Err(e)) => Some(Err(e)),
                    Some(Ok((ts, n))) => if 0 < n && j + n <= s.len() {
                        lex_bail_from(p, b2, s, j + n, toks + ts)
                    } else {
                        None
                    },
                    None => match lex_step(s, j) {
                        LexStep::Skip => None,
                        LexStep::Stuck => None,
                        LexStep::Fail(e) => Some(Err(e)),
                        LexStep::Token(t, k) => if j < k <= s.len() {
                            lex_bail_from(p, b2, s, k, toks.push(t))
                        } else {
                            None
                        },
                    },
                }
            },
        }
    }
}

/// Convert source code to tokens, appended to `tokens`, with the plugins
/// `p`, asking `bail` before every token, on the rest of the text, whether
/// to stop; where it says so the rest is handed back unread. Byte ranges
/// are counted from the start of `data`. `None` where the text holds
/// something the lexer does not accept, or a plugin takes no character or
/// more than there are.
pub fn try_lex_bail<'a, P: LexerPlugins, B: LexBail>(
    tokens: Vec<Entry>,
    data: &'a str,
    p: &P,
    bail: &mut B,
) -> (r: Option<Result<LexRes<'a>, LexError>>)
    ensures
        match r {
            None => lex_bail_from(*p, *old(bail), data@, 0, entry_views(tokens@)) is None,
            Some(Ok(res)) => lex_bail_from(*p, *old(bail), data@, 0, entry_views(tokens@)) matches Some(
                Ok((t, k)),
            ) && entry_views(res.tokens@) == t && res.tail@ == data@.skip(k),
            Some(Err(e)) => lex_bail_from(*p, *old(bail), data@, 0, entry_views(tokens@)) == Some(
                Err::<(Seq<EntryView>, int), LexError>(e),
            ),
        },
{
    let (s, offs) = lex_setup(data);
    let n = s.len();
    let ghost goal = lex_bail_from(*p, *bail, data@, 0, entry_views(tokens@));
    let mut toks = tokens;
    let mut i: usize = 0;
    loop
        invariant
            i <= n,
            n == s@.len(),
            lex_input(data, s@, offs@),
            lex_bail_from(*p, *bail, s@, i as int, entry_views(toks@)) == goal,
            goal == lex_bail_from(*p, *old(bail), data@, 0, entry_views(tokens@)),
        decreases n - i,
    {
        let j = skip_blank_exec(&s, i);
        let tail = data.substring_char(j, n);
        assert(tail@ =~= s@.skip(j as int));
        let ghost before = *bail;
        let answer = bail.stop(tail);
        match answer {
            Err(e) => {
                return Some(Err(e));
            },
            Ok(true) => {
                return Some(Ok(LexRes { tail, tokens: toks }));
            },
            Ok(false) => {},
        }
        if j == n {
            return Some(Ok(LexRes { tail, tokens: toks }));
        }
        match p.lex(tail, offs[j]) {
            Some(Err(e)) => {
                return Some(Err(e));
            },
            Some(Ok((more, c))) => {
                if c == 0 || c > n - j {
                    return None;
                }
                let ghost old_toks = toks@;
                let mut more = more;
                let ghost mv = more@;
                toks.append(&mut more);
                assert(entry_views(toks@) =~= entry_views(old_toks) + entry_views(mv));
                i = j + c;
            },
            None => {
                match lex_step_exec(data, &s, &offs, j) {
                    ExecStep::Skip => {
                        return None;
                    },
                    ExecStep::Stuck => {
                        return None;
                    },
                    ExecStep::Fail(e) => {
                        return Some(Err(e));
                    },
                    ExecStep::Token(t, k) => {
                        if k <= j || k > n {
                            return None;
                        }
                        let ghost old_toks = toks@;
                        toks.push(t);
                        assert(entry_views(toks@) =~= entry_views(old_toks).push(t@));
                        i = k;
                    },
                }
            },
        }
    }
}

/// Convert source code to a flat list of tokens, appended to `tokens`. Byte
/// ranges are counted from the start of `data`.
pub fn lex(tokens: Vec<Entry>, data: &str) -> (r: Result<Vec<Entry>, LexError>)
    requires
        lex_from(data@, 0, entry_views(tokens@)) is Some,
    ensures
        match r {
            Ok(t) => lex_from(data@, 0, entry_views(tokens@)) == Some(
                Ok::<Seq<EntryView>, LexError>(entry_views(t@)),
            ),
            Err(e) => lex_from(data@, 0, entry_views(tokens@)) == Some(
                Err::<Seq<EntryView>, LexError>(e),
            ),
        },
{
    try_lex(tokens, data).unwrap()
}

/// Tokenize `s[i..]` after `toks` up to the `}` that closes an
/// interpolation opened by the `${` at `open`, counting the braces on the
/// way at `depth`: the tokens and the index of that `}`. `None` where the
/// text holds something the lexer does not accept.
pub open spec fn lex_until(s: Seq<char>, i: int, toks: Seq<EntryView>, depth: int, open: int) -> Option<
    Result<(Seq<EntryView>, int), LexError>,
>
    decreases s.len() - i,
{
    let j = skip_blank(s, i);
    if i < 0 || j < i || j > s.len() {
        None
    } else if j == s.len() {
        Some(Err(lex_error(LexErrorKind::UnclosedInterpolation, bp(s, open), bp(s, open + 2))))
    } else if s[j] == '}' && depth == 0 {
        Some(Ok((toks, j)))
    } else {
        let d2 = if s[j] == '{' {
            depth + 1
        } else if s[j] == '}' {
            depth - 1
        } else {
            depth
        };
        match lex_step(s, j) {
            LexStep::Skip => None,
            LexStep::Stuck => None,
            LexStep::Fail(e) => Some(Err(e)),
            LexStep::Token(t, k) => if j < k <= s.len() {
                lex_until(s, k, toks.push(t), d2, open)
            } else {
                None
            },
        }
    }
}

/// Tokenize from `i` up to the `}` that closes the interpolation opened at
/// `open`.
pub(crate) fn lex_until_exec(data: &str, s: &Vec<char>, offs: &Vec<usize>, i: usize, open: usize) -> (r:
    Result<(Vec<Entry>, usize), LexError>)
    requires
        lex_input(data, s@, offs@),
        open + 2 <= i <= s@.len(),
        lex_until(s@, i as int, Seq::empty(), 0, open as int) is Some,
    ensures
        match r {
            Ok((t, e)) => lex_until(s@, i as int, Seq::empty(), 0, open as int) == Some(
                Ok::<(Seq<EntryView>, int), LexError>((entry_views(t@), e as int)),
            ) && i <= e < s@.len() && s@[e as int] == '}',
            Err(err) => lex_until(s@, i as int, Seq::empty(), 0, open as int) == Some(
                Err::<(Seq<EntryView>, int), LexError>(err),
            ),
        },
{
    let n = s.len();
    let ghost goal = lex_until(s@, i as int, Seq::empty(), 0, open as int);
    let mut toks: Vec<Entry> = Vec::new();
    assert(entry_views(toks@) =~= Seq::<EntryView>::empty());
    let mut k = i;
    let mut depth: usize = 0;
    loop
        invariant
            i <= k <= n,
            open + 2 <= i,
            depth <= k,
            n == s@.len(),
            lex_input(data, s@, offs@),
            lex_until(s@, k as int, entry_views(toks@), depth as int, open as int) == goal,
            goal == lex_until(s@, i as int, Seq::empty(), 0, open as int),
            goal is Some,
        decreases n - k,
    {
        let j = skip_blank_exec(s, k);
        if j == n {
            return Err(
                LexError {
                    kind: LexErrorKind::UnclosedInterpolation,
                    range: Range { start: offs[open], end: offs[open + 2] },
                },
            );
        }
        let c = s[j];
        if c == '}' && depth == 0 {
            return Ok((toks, j));
        }
        let d2 = if c == '{' {
            depth + 1
        } else if c == '}' {
            depth - 1
        } else {
            depth
        };
        match lex_step_exec(data, s, offs, j) {
            ExecStep::Skip | ExecStep::Stuck => {
                assert(false);
                return Err(
                    LexError {
                        kind: LexErrorKind::UnclosedInterpolation,
                        range: Range { start: offs[open], end: offs[open + 2] },
                    },
                );
            },
            ExecStep::Fail(e) => {
                return Err(e);
            },
            ExecStep::Token(t, k2) => {
                let ghost old_toks = toks@;
                toks.push(t);
                assert(entry_views(toks@) =~= entry_views(old_toks).push(t@));
                k = k2;
                depth = d2;
            },
        }
    }
}

/// The token starts no later than it ends, and ends no later than byte `hi`.
pub open spec fn token_within(t: EntryView, hi: int) -> bool {
    t.start <= t.end <= hi
}

/// The tokens end no later than byte `hi`, each starts no later than it
/// ends, and each ends no later than any later one starts.
pub open spec fn tokens_in_order(toks: Seq<EntryView>, hi: int) -> bool {
    &&& forall|k: int| 0 <= k < toks.len() ==> #[trigger] token_within(toks[k], hi)
    &&& forall|a: int, b: int| 0 <= a < b < toks.len() ==> #[trigger] toks[a].end <= #[trigger] toks[b].start
}

/// A token read at `j` that the lexer continues after at `k` lies within
/// the bytes of `s[j..k]`.
proof fn lemma_step_range(s: Seq<char>, j: int)
    requires
        0 <= j < s.len(),
    ensures
        lex_step(s, j) matches LexStep::Token(t, k) ==> (j < k <= s.len() ==> bp(s, j) <= t.start
            <= t.end <= bp(s, k)),
{
    reveal(lex_step);
    match lex_step(s, j) {
        LexStep::Token(t, k) => {
            if j < k <= s.len() {
                lemma_sub_bytes(s, j, k);
                if spec_numstart(s[j]) {
                    lemma_run_end_bounds(s, j, CharClass::Num);
                } else if s[j] == '"' {
                    let d = j + 1;
                    lemma_closing_quote_bounds(s, d, d);
                    let q = closing_quote(s, d, d)->0;
                    lemma_ascii_step(s, j);
                    lemma_ascii_step(s, q);
                    lemma_sub_bytes(s, d, q);
                } else if lit_step(s, j) is Some {
                } else if s[j] == ',' {
                } else if !(comment_step(s, j) is Skip) {
                    if at(s, j, '-') && at(s, j + 1, '-') && at(s, j + 2, '[') {
                        lemma_find_comment_end_bounds(s, j + 3);
                        let q = find_comment_end(s, j + 3)->0;
                        lemma_sub_bytes(s, j, j + 3);
                        lemma_sub_bytes(s, j + 3, q + 3);
                    } else {
                        lemma_run_end_bounds(s, j + 2, CharClass::Line);
                        lemma_sub_bytes(s, j, j + 2);
                        lemma_sub_bytes(s, j + 2, k);
                    }
                } else if !(arrow_step(s, j) is Skip) {
                } else if !(placeholder_step(s, j) is Skip) {
                    let kk = if at(s, j + 1, '_') {
                        j + 2
                    } else {
                        j + 1
                    };
                    lemma_run_end_bounds(s, kk, CharClass::Name);
                    lemma_ascii_step(s, j);
                    lemma_sub_bytes(s, j + 1, kk);
                    lemma_sub_bytes(s, kk, k);
                } else if !(vec_placeholder_step(s, j) is Skip) {
                } else {
                }
            }
        },
        _ => {},
    }
}

/// The whole text ends at its byte length.
proof fn lemma_bp_end(s: Seq<char>)
    ensures
        bp(s, s.len() as int) == byte_len(s),
{
    assert(s.take(s.len() as int) =~= s);
}

/// Lexing on from `i` keeps the tokens read so far and adds tokens in order.
proof fn lemma_lex_from_in_order(s: Seq<char>, i: int, toks: Seq<EntryView>)
    requires
        0 <= i <= s.len(),
        tokens_in_order(toks, bp(s, i)),
    ensures
        lex_from(s, i, toks) matches Some(Ok(out)) ==> tokens_in_order(out, byte_len(s) as int)
            && toks.len() <= out.len() && out.take(toks.len() as int) == toks,
    decreases s.len() - i,
{
    lemma_skip_blank_bounds(s, i);
    let j = skip_blank(s, i);
    lemma_sub_bytes(s, i, j);
    if j == s.len() {
        lemma_bp_end(s);
        assert(toks.take(toks.len() as int) =~= toks);
        assert forall|x: int| 0 <= x < toks.len() implies #[trigger] token_within(
            toks[x],
            byte_len(s) as int,
        ) by {
            assert(token_within(toks[x], bp(s, i)));
        }
    } else {
        lemma_step_range(s, j);
        match lex_step(s, j) {
            LexStep::Token(t, k) => {
                if j < k <= s.len() {
                    let next = toks.push(t);
                    assert forall|a: int, b: int| 0 <= a < b < next.len() implies #[trigger] next[a].end
                        <= #[trigger] next[b].start by {
                        if b == toks.len() {
                            assert(token_within(toks[a], bp(s, i)));
                        } else {
                            assert(next[a] == toks[a] && next[b] == toks[b]);
                        }
                    }
                    assert forall|x: int| 0 <= x < next.len() implies #[trigger] token_within(
                        next[x],
                        bp(s, k),
                    ) by {
                        if x < toks.len() {
                            assert(next[x] == toks[x]);
                            assert(token_within(toks[x], bp(s, i)));
                        }
                    }
                    lemma_lex_from_in_order(s, k, next);
                    match lex_from(s, k, next) {
                        Some(Ok(out)) => {
                            assert(out.take(next.len() as int).take(toks.len() as int) =~= out.take(
                                toks.len() as int,
                            ));
                            assert(next.take(toks.len() as int) =~= toks);
                        },
                        _ => {},
                    }
                }
            },
            _ => {},
        }
    }
}

/// The tokens of a text that lexes lie within the text, in the order of
/// the text, and no two of them overlap.
pub proof fn law_tokens_in_order(s: Seq<char>)
    ensures
        lex_from(s, 0, Seq::empty()) matches Some(Ok(t)) ==> tokens_in_order(t, byte_len(s) as int),
{
    assert(s.take(0) =~= Seq::<char>::empty());
    lemma_lex_from_in_order(s, 0, Seq::empty());
}

proof fn lemma_lex_from_prefix(s: Seq<char>, i: int, toks: Seq<EntryView>)
    ensures
        lex_from(s, i, toks) matches Some(Ok(out)) ==> toks.len() <= out.len() && out.take(
            toks.len() as int,
        ) == toks,
    decreases s.len() - i,
{
    let j = skip_blank(s, i);
    if i < 0 || j < i || j > s.len() {
    } else if j == s.len() {
        assert(toks.take(toks.len() as int) =~= toks);
    } else {
        match lex_step(s, j) {
            LexStep::Token(t, k) => {
                if j < k <= s.len() {
                    let next = toks.push(t);
                    lemma_lex_from_prefix(s, k, next);
                    match lex_from(s, k, next) {
                        Some(Ok(out)) => {
                            assert(out.take(next.len() as int).take(toks.len() as int) =~= out.take(
                                toks.len() as int,
                            ));
                            assert(next.take(toks.len() as int) =~= toks);
                        },
                        _ => {},
                    }
                }
            },
            _ => {},
        }
    }
}

/// Lexing appends: the tokens handed to the lexer come first in its output,
/// unchanged and in order, and the tokens of the text follow them.
pub proof fn law_lex_keeps_input_tokens(s: Seq<char>, toks: Seq<EntryView>)
    ensures
        lex_from(s, 0, toks) matches Some(Ok(out)) ==> toks.len() <= out.len() && out.take(
            toks.len() as int,
        ) == toks,
{
    lemma_lex_from_prefix(s, 0, toks);
}

/// A text that is one token from its first character to its end lexes to
/// that token alone.
proof fn lemma_single_token(s: Seq<char>, t: EntryView)
    requires
        s.len() > 0,
        !(spec_is_whitespace(s[0]) && s[0] != '\n'),
        lex_step(s, 0) == LexStep::Token(t, s.len() as int),
    ensures
        lex_from(s, 0, Seq::empty()) == Some(Ok::<Seq<EntryView>, LexError>(seq![t])),
{
    assert(skip_blank(s, 0) == 0);
    assert(skip_blank(s, s.len() as int) == s.len());
    assert(Seq::<EntryView>::empty().push(t) =~= seq![t]);
    assert(lex_from(s, s.len() as int, seq![t]) == Some(Ok::<Seq<EntryView>, LexError>(seq![t])));
}

/// A run of characters of one class reaches the end of the text.
proof fn lemma_run_end_all(s: Seq<char>, i: int, cls: CharClass)
    requires
        0 <= i <= s.len(),
        forall|k: int| i <= k < s.len() ==> #[trigger] in_class(s[k], cls),
    ensures
        run_end(s, i, cls) == s.len(),
    decreases s.len() - i,
{
    if i < s.len() {
        lemma_run_end_all(s, i + 1, cls);
    }
}

/// The first `]--` from `i` on is at `q`.
proof fn lemma_comment_end_at(s: Seq<char>, i: int, q: int)
    requires
        0 <= i <= q,
        q + 3 <= s.len(),
        at(s, q, ']') && at(s, q + 1, '-') && at(s, q + 2, '-'),
        forall|k: int| i <= k < q ==> !(#[trigger] at(s, k, ']') && at(s, k + 1, '-') && at(s, k + 2, '-')),
    ensures
        find_comment_end(s, i) == Some(q),
    decreases q - i,
{
    if i < q {
        assert(!(at(s, i, ']') && at(s, i + 1, '-') && at(s, i + 2, '-')));
        lemma_comment_end_at(s, i + 1, q);
    }
}

/// Whether `]--` occurs in `c`.
pub open spec fn has_comment_end(c: Seq<char>) -> bool {
    exists|k: int| 0 <= k && k + 2 < c.len() && #[trigger] c[k] == ']' && c[k + 1] == '-' && c[k + 2] == '-'
}

/// The lexemes whose printed text reads back as themselves: the fixed
/// tokens, comments without `]--` in them, and names made of a character
/// that can start a name, which is no spacing, and characters that can
/// continue one.
pub open spec fn reads_back(l: LexemeView) -> bool {
    match l {
        LexemeView::Walrus | LexemeView::NS | LexemeView::BS | LexemeView::At | LexemeView::Type
        | LexemeView::BR | LexemeView::LP(_) | LexemeView::RP(_) => true,
        LexemeView::Comment(c) => !has_comment_end(c),
        LexemeView::Name(n) => n.len() > 0 && spec_namestart(n[0]) && !spec_is_whitespace(n[0])
            && forall|k: int| 1 <= k < n.len() ==> #[trigger] spec_namechar(n[k]),
        _ => false,
    }
}

proof fn lemma_fixed_reads_back(l: LexemeView)
    requires
        !(l is Name) && !(l is Comment) && reads_back(l),
    ensures
        spec_lexeme_text(l) matches Some(t) && lex_from(t, 0, Seq::empty()) matches Some(Ok(out))
            && out.len() == 1 && out[0].lexeme == l,
{
    reveal(lex_step);
    reveal_strlit(":=");
    reveal_strlit("::");
    reveal_strlit("\\");
    reveal_strlit("@");
    reveal_strlit(":");
    reveal_strlit("\n");
    reveal_strlit("(");
    reveal_strlit("[");
    reveal_strlit("{");
    reveal_strlit(")");
    reveal_strlit("]");
    reveal_strlit("}");
    let t = spec_lexeme_text(l)->0;
    let n = t.len() as int;
    let e = mk(l, bp(t, 0), bp(t, n));
    assert(lex_step(t, 0) == LexStep::Token(e, n));
    lemma_single_token(t, e);
}

proof fn lemma_comment_reads_back(c: Seq<char>)
    requires
        !has_comment_end(c),
    ensures
        spec_lexeme_text(LexemeView::Comment(c)) matches Some(t) && lex_from(t, 0, Seq::empty())
            matches Some(Ok(out)) && out.len() == 1 && out[0].lexeme == LexemeView::Comment(c),
{
    reveal(lex_step);
    reveal_strlit("--[");
    reveal_strlit("]--");
    let t = "--["@ + c + "]--"@;
    let q: int = 3 + c.len() as int;
    assert(t.len() == q + 3);
    assert forall|k: int| 3 <= k < q implies !(#[trigger] at(t, k, ']') && at(t, k + 1, '-') && at(
        t,
        k + 2,
        '-',
    )) by {
        if at(t, k, ']') && at(t, k + 1, '-') && at(t, k + 2, '-') {
            if k + 2 < q {
                assert(c[k - 3] == ']' && c[k - 2] == '-' && c[k - 1] == '-');
                assert(has_comment_end(c));
            } else if k + 1 < q {
                assert(t[k + 2] == ']');
            } else {
                assert(t[k + 1] == ']');
            }
        }
    }
    lemma_comment_end_at(t, 3, q);
    assert(t.subrange(3, q) =~= c);
    let e = mk(LexemeView::Comment(c), bp(t, 3), bp(t, q + 3));
    assert(comment_step(t, 0) == LexStep::Token(e, q + 3));
    assert(lex_step(t, 0) == LexStep::Token(e, q + 3));
    lemma_single_token(t, e);
}

proof fn lemma_name_reads_back(n: Seq<char>)
    requires
        reads_back(LexemeView::Name(n)),
    ensures
        lex_from(n, 0, Seq::empty()) matches Some(Ok(out)) && out.len() == 1 && out[0].lexeme
            == LexemeView::Name(n),
{
    reveal(lex_step);
    let len = n.len() as int;
    assert forall|k: int| 0 <= k < len implies #[trigger] in_class(n[k], CharClass::Name) by {
        if k > 0 {
            assert(spec_namechar(n[k]));
        }
    }
    lemma_run_end_all(n, 0, CharClass::Name);
    assert(n.subrange(0, len) =~= n);
    let e = mk(LexemeView::Name(n), bp(n, 0), bp(n, len));
    assert(!spec_numstart(n[0]));
    assert(lit_step(n, 0) is None);
    assert(comment_step(n, 0) is Skip);
    assert(arrow_step(n, 0) is Skip);
    assert(placeholder_step(n, 0) is Skip);
    assert(vec_placeholder_step(n, 0) is Skip);
    assert(word_step(n, 0) == LexStep::Token(e, len));
    assert(lex_step(n, 0) == LexStep::Token(e, len));
    lemma_single_token(n, e);
}

/// Printing a lexeme and lexing the text gives that lexeme back, alone: for
/// the fixed tokens, for comments without `]--`, and for names of name
/// characters.
pub proof fn law_print_lex(l: LexemeView)
    requires
        reads_back(l),
    ensures
        spec_lexeme_text(l) matches Some(t) && lex_from(t, 0, Seq::empty()) matches Some(Ok(out))
            && out.len() == 1 && out[0].lexeme == l,
{
    match l {
        LexemeView::Comment(c) => lemma_comment_reads_back(c),
        LexemeView::Name(n) => lemma_name_reads_back(n),
        _ => lemma_fixed_reads_back(l),
    }
}

/// The number of backslashes at the end of `c`.
pub open spec fn trailing_backslashes(c: Seq<char>) -> nat
    decreases c.len(),
{
    if c.len() > 0 && c.last() == '\\' {
        1 + trailing_backslashes(c.drop_last())
    } else {
        0
    }
}

/// `c` between two quotes.
pub open spec fn quoted(c: Seq<char>) -> Seq<char> {
    seq!['"'] + c + seq!['"']
}

proof fn lemma_quoted_backslashes(c: Seq<char>, k: int)
    requires
        0 <= k <= c.len(),
    ensures
        backslashes_before(quoted(c), 1, k + 1) == trailing_backslashes(c.take(k)),
    decreases k,
{
    let s = quoted(c);
    if k > 0 {
        lemma_quoted_backslashes(c, k - 1);
        assert(s[k] == c[k - 1]);
        assert(c.take(k).drop_last() =~= c.take(k - 1));
        assert(c.take(k).last() == c[k - 1]);
    } else {
        assert(c.take(0).len() == 0);
    }
}

proof fn lemma_quoted_find(c: Seq<char>, i: int)
    requires
        1 <= i <= c.len() + 1,
        forall|k: int| 0 <= k < c.len() ==> c[k] != '"',
    ensures
        find_quote(quoted(c), i) == Some((c.len() + 1) as int),
    decreases c.len() + 1 - i,
{
    let s = quoted(c);
    if i <= c.len() {
        assert(s[i] == c[i - 1]);
        lemma_quoted_find(c, i + 1);
    }
}

proof fn lemma_quoted_first(c: Seq<char>)
    ensures
        skip_blank(quoted(c), 0) == 0,
        lex_step(quoted(c), 0) == string_step(quoted(c), 0),
        quoted(c).subrange(1, c.len() + 1 as int) =~= c,
        quoted(c).len() == c.len() + 2,
{
    let s = quoted(c);
    assert(s[0] == '"');
    assert(!spec_numstart(s[0]));
    reveal(lex_step);
}

/// A quote closes a string literal when an even number of backslashes, none
/// among them, stands before it: for content without quotes whose decoding
/// succeeds and whose trailing run of backslashes is even, the quoted text
/// lexes to one string token holding the decoding; where that run is odd,
/// the quote is escaped and the literal has no end.
pub proof fn law_closing_quote(c: Seq<char>)
    requires
        forall|k: int| 0 <= k < c.len() ==> c[k] != '"',
    ensures
        trailing_backslashes(c) % 2 == 0 ==> (spec_parse_string(c) matches Some(Ok(t)) ==> (lex_from(
            quoted(c),
            0,
            Seq::empty(),
        ) matches Some(Ok(out)) && out.len() == 1 && out[0].lexeme == LexemeView::Atom(
            AtomView::Str(t),
        ))),
        trailing_backslashes(c) % 2 == 1 ==> (lex_from(quoted(c), 0, Seq::empty()) matches Some(
            Err(e),
        ) && e.kind == LexErrorKind::NoStringEnd),
{
    let s = quoted(c);
    let n = c.len() as int;
    lemma_quoted_first(c);
    lemma_quoted_backslashes(c, n);
    assert(c.take(n) =~= c);
    lemma_quoted_find(c, 1);
    assert(find_quote(s, n + 2) is None);
    if trailing_backslashes(c) % 2 == 0 {
        assert(closing_quote(s, 1, 1) == Some(n + 1));
        if spec_parse_string(c) is Some && spec_parse_string(c)->0 is Ok {
            let t = spec_parse_string(c)->0->Ok_0;
            let tok = mk(LexemeView::Atom(AtomView::Str(t)), bp(s, n + 2) - (bp(s, n + 1) - bp(s, 1)), bp(s, n + 2));
            assert(string_step(s, 0) == LexStep::Token(tok, n + 2));
            lemma_single_token(s, tok);
        }
    } else {
        assert(closing_quote(s, n + 2, 1) is None);
        assert(closing_quote(s, 1, 1) is None);
        assert(lex_from(s, 0, Seq::empty()) == Some(
            Err::<Seq<EntryView>, LexError>(
                lex_error(LexErrorKind::NoStringEnd, bp(s, 1), bp(s, s.len() as int)),
            ),
        ));
    }
}

proof fn lemma_placeholder_text(pre: Seq<char>, n: Seq<char>, l: LexemeView)
    requires
        n.len() > 0,
        forall|k: int| 0 <= k < n.len() ==> #[trigger] spec_namechar(n[k]),
        pre.len() > 0,
        !(spec_is_whitespace(pre[0]) && pre[0] != '\n'),
        lex_step(pre + n, 0) matches LexStep::Token(t, e) && e == (pre + n).len() && t.lexeme == l,
    ensures
        lex_from(pre + n, 0, Seq::empty()) matches Some(Ok(out)) && out.len() == 1 && out[0].lexeme
            == l,
{
    let s = pre + n;
    let t = lex_step(s, 0)->Token_0;
    lemma_single_token(s, t);
}

proof fn lemma_name_run(pre: Seq<char>, n: Seq<char>)
    requires
        forall|k: int| 0 <= k < n.len() ==> #[trigger] spec_namechar(n[k]),
    ensures
        run_end(pre + n, pre.len() as int, CharClass::Name) == (pre + n).len(),
        (pre + n).subrange(pre.len() as int, (pre + n).len() as int) =~= n,
{
    let s = pre + n;
    assert forall|k: int| pre.len() <= k < s.len() implies #[trigger] in_class(s[k], CharClass::Name) by {
        assert(s[k] == n[k - pre.len()]);
    }
    lemma_run_end_all(s, pre.len() as int, CharClass::Name);
}

#[verifier::rlimit(40)]
proof fn lemma_ph_single(n: Seq<char>, nameonly: bool)
    requires
        n.len() > 0,
        n[0] != '_',
        forall|k: int| 0 <= k < n.len() ==> #[trigger] spec_namechar(n[k]),
    ensures
        ({
            let pre = if nameonly {
                seq!['$', '_']
            } else {
                seq!['$']
            };
            let class = if nameonly {
                PHClass::Name
            } else {
                PHClass::Scalar
            };
            lex_from(pre + n, 0, Seq::empty()) matches Some(Ok(out)) && out.len() == 1
                && out[0].lexeme == LexemeView::Placeh(PlaceholderView { name: n, class })
        }),
{
    reveal(lex_step);
    let pre = if nameonly {
        seq!['$', '_']
    } else {
        seq!['$']
    };
    let class = if nameonly {
        PHClass::Name
    } else {
        PHClass::Scalar
    };
    let s = pre + n;
    assert(spec_namechar(n[0]));
    lemma_name_run(pre, n);
    assert(s[0] == '$');
    if nameonly {
        assert(s[1] == '_');
    } else {
        assert(s[1] == n[0]);
    }
    assert(lit_step(s, 0) is None);
    assert(comment_step(s, 0) is Skip);
    assert(arrow_step(s, 0) is Skip);
    lemma_placeholder_text(pre, n, LexemeView::Placeh(PlaceholderView { name: n, class }));
}

#[verifier::rlimit(40)]
proof fn lemma_ph_vec(n: Seq<char>, nonzero: bool)
    requires
        n.len() > 0,
        forall|k: int| 0 <= k < n.len() ==> #[trigger] spec_namechar(n[k]),
    ensures
        ({
            let pre = if nonzero {
                seq!['.', '.', '.', '$']
            } else {
                seq!['.', '.', '$']
            };
            lex_from(pre + n, 0, Seq::empty()) matches Some(Ok(out)) && out.len() == 1
                && out[0].lexeme == LexemeView::Placeh(
                PlaceholderView { name: n, class: PHClass::Vec { nonzero, prio: 0 } },
            )
        }),
{
    reveal(lex_step);
    let pre = if nonzero {
        seq!['.', '.', '.', '$']
    } else {
        seq!['.', '.', '$']
    };
    let s = pre + n;
    lemma_name_run(pre, n);
    assert(s[0] == '.' && s[1] == '.');
    if nonzero {
        assert(s[2] == '.' && s[3] == '$');
    } else {
        assert(s[2] == '$');
        assert(spec_namechar(n[0]));
        assert(s[3] == n[0]);
    }
    assert(lit_step(s, 0) is None);
    assert(comment_step(s, 0) is Skip);
    assert(arrow_step(s, 0) is Skip);
    assert(placeholder_step(s, 0) is Skip);
    lemma_placeholder_text(
        pre,
        n,
        LexemeView::Placeh(PlaceholderView { name: n, class: PHClass::Vec { nonzero, prio: 0 } }),
    );
}

/// Placeholders read as their sigils say: `$name` is a scalar placeholder,
/// `$_name` a name placeholder, `..$name` a vectorial one that may be empty
/// and `...$name` one that may not, both of priority zero; each names the
/// characters after its sigil.
pub proof fn law_placeholders(n: Seq<char>)
    requires
        n.len() > 0,
        n[0] != '_',
        forall|k: int| 0 <= k < n.len() ==> #[trigger] spec_namechar(n[k]),
    ensures
        lex_from(seq!['$'] + n, 0, Seq::empty()) matches Some(Ok(out)) && out.len() == 1
            && out[0].lexeme == LexemeView::Placeh(PlaceholderView { name: n, class: PHClass::Scalar }),
        lex_from(seq!['$', '_'] + n, 0, Seq::empty()) matches Some(Ok(out)) && out.len() == 1
            && out[0].lexeme == LexemeView::Placeh(PlaceholderView { name: n, class: PHClass::Name }),
        lex_from(seq!['.', '.', '$'] + n, 0, Seq::empty()) matches Some(Ok(out)) && out.len() == 1
            && out[0].lexeme == LexemeView::Placeh(
            PlaceholderView { name: n, class: PHClass::Vec { nonzero: false, prio: 0 } },
        ),
        lex_from(seq!['.', '.', '.', '$'] + n, 0, Seq::empty()) matches Some(Ok(out)) && out.len() == 1
            && out[0].lexeme == LexemeView::Placeh(
            PlaceholderView { name: n, class: PHClass::Vec { nonzero: true, prio: 0 } },
        ),
{
    lemma_ph_single(n, false);
    lemma_ph_single(n, true);
    lemma_ph_vec(n, false);
    lemma_ph_vec(n, true);
}

/// Whether every character of `d` is an ASCII decimal digit.
pub open spec fn decimal_chars(d: Seq<char>) -> bool {
    forall|i: int| 0 <= i < d.len() ==> '0' <= #[trigger] d[i] <= '9'
}

proof fn lemma_encode_digits(d: Seq<char>)
    requires
        decimal_chars(d),
    ensures
        encode_utf8(d).len() == d.len(),
        all_decimal(encode_utf8(d)),
    decreases d.len(),
{
    if d.len() > 0 {
        let v = d[0] as u32;
        assert('0' <= d[0] <= '9');
        assert(0x30 <= v <= 0x39);
        assert((v & 0x7F) as u8 == v as u8 && 0x30 <= (v as u8) <= 0x39) by (bit_vector)
            requires
                0x30 <= v <= 0x39,
        ;
        let rest = d.drop_first();
        assert forall|i: int| 0 <= i < rest.len() implies '0' <= #[trigger] rest[i] <= '9' by {
            assert(rest[i] == d[i + 1]);
        }
        lemma_encode_digits(rest);
        let b = encode_utf8(d);
        assert(b == seq![(v & 0x7F) as u8] + encode_utf8(rest));
        assert forall|i: int| 0 <= i < b.len() implies 0x30 <= #[trigger] b[i] <= 0x39 by {
            if i > 0 {
                assert(b[i] == encode_utf8(rest)[i - 1]);
            }
        }
    }
}

proof fn lemma_run_end_stop(s: Seq<char>, i: int, k: int, cls: CharClass)
    requires
        0 <= i <= k <= s.len(),
        forall|j: int| i <= j < k ==> #[trigger] in_class(s[j], cls),
        k == s.len() || !in_class(s[k], cls),
    ensures
        run_end(s, i, cls) == k,
    decreases k - i,
{
    if i < k {
        lemma_run_end_stop(s, i + 1, k, cls);
    }
}

/// A run of decimal digits is a number token for the integer they spell,
/// wherever it fits in `usize`; between `=` and `=>` it is the priority of a
/// macro arrow.
pub proof fn law_number_tokens(d: Seq<char>)
    requires
        d.len() > 0,
        decimal_chars(d),
        decimal_from(encode_utf8(d), 0) <= usize::MAX,
    ensures
        lex_from(d, 0, Seq::empty()) matches Some(Ok(out)) && out.len() == 1 && out[0].lexeme
            == LexemeView::Atom(AtomView::Num(Numeric::Uint(decimal_from(encode_utf8(d), 0) as usize))),
        lex_from(seq!['='] + d + seq!['=', '>'], 0, Seq::empty()) matches Some(Ok(out)) && out.len()
            == 1 && out[0].lexeme == LexemeView::Arrow(
            Numeric::Uint(decimal_from(encode_utf8(d), 0) as usize),
        ),
{
    reveal(lex_step);
    let n = d.len() as int;
    let v = Numeric::Uint(decimal_from(encode_utf8(d), 0) as usize);
    lemma_encode_digits(d);
    law_decimal_literal(encode_utf8(d));
    assert('0' <= d[0] <= '9');
    assert forall|j: int| 0 <= j < n implies #[trigger] in_class(d[j], CharClass::Num) by {
        assert('0' <= d[j] <= '9');
    }
    lemma_run_end_stop(d, 0, n, CharClass::Num);
    assert(d.subrange(0, n) =~= d);
    let t1 = mk(LexemeView::Atom(AtomView::Num(v)), bp(d, 0), bp(d, n));
    assert(number_step(d, 0) == LexStep::Token(t1, n));
    lemma_single_token(d, t1);
    let s = seq!['='] + d + seq!['=', '>'];
    assert forall|j: int| 1 <= j < n + 1 implies #[trigger] in_class(s[j], CharClass::Num) by {
        assert(s[j] == d[j - 1]);
        assert('0' <= d[j - 1] <= '9');
    }
    assert(s[n + 1] == '=' && s[n + 2] == '>');
    lemma_run_end_stop(s, 1, n + 1, CharClass::Num);
    assert(s.subrange(1, n + 1) =~= d);
    assert(s[0] == '=' && s[1] == d[0]);
    let t2 = mk(LexemeView::Arrow(v), bp(s, 0), bp(s, n + 3));
    assert(arrow_step(s, 0) == LexStep::Token(t2, n + 3));
    assert(lit_step(s, 0) is None);
    assert(comment_step(s, 0) is Skip);
    lemma_single_token(s, t2);
}

/// With a callback that never stops it, the lexer reads the whole text and
/// gives what it gives without one.
pub proof fn law_never_bail<P: LexerPlugins>(p: P, s: Seq<char>, i: int, toks: Seq<EntryView>)
    ensures
        lex_bail_from(p, NeverBail, s, i, toks) == match lex_from_with(p, s, i, toks) {
            None => None,
            Some(Err(e)) => Some(Err(e)),
            Some(Ok(t)) => Some(Ok::<(Seq<EntryView>, int), LexError>((t, s.len() as int))),
        },
    decreases s.len() - i,
{
    let j = skip_blank(s, i);
    if i < 0 || j < i || j > s.len() {
    } else if j == s.len() {
    } else {
        match p.spec_lex(s.skip(j), bp(s, j) as nat) {
            Some(Ok((ts, n))) => {
                if 0 < n && j + n <= s.len() {
                    law_never_bail(p, s, j + n, toks + ts);
                }
            },
            None => match lex_step(s, j) {
                LexStep::Token(t, k) => {
                    if j < k <= s.len() {
                        law_never_bail(p, s, k, toks.push(t));
                    }
                },
                _ => {},
            },
            _ => {},
        }
    }
}

} // verus!
