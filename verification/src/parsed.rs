//! The syntax tree the parser produces.

use std::ops::Range;
use vstd::prelude::*;

use crate::lexer::{Atom, AtomView, Placeholder, PlaceholderView, PType};
use crate::name::{Sym, VPath};
use crate::numeric::Numeric;

verus! {

/// An import of a name or a glob from a path
#[derive(Debug)]
pub struct Import {
    /// The imported name, or `None` for a glob
    pub name: Option<String>,
    /// The path the name is imported from
    pub path: VPath,
    /// Location in bytes
    pub range: Range<usize>,
}

/// An expression
#[derive(Debug)]
pub enum Clause {
    /// A literal
    Atom(Atom),
    /// A macro placeholder
    Placeh(Placeholder),
    /// A namespaced name
    Name(Sym),
    /// A parenthesized sequence of expressions
    S(PType, Vec<Expr>),
    /// `\arg . body`
    Lambda(Vec<Expr>, Vec<Expr>),
}

/// An expression with the byte range it was parsed from
#[derive(Debug)]
pub struct Expr {
    /// The expression
    pub value: Clause,
    /// Location in bytes
    pub range: Range<usize>,
}

/// The abstract value of an [Import]
pub struct ImportView {
    pub name: Option<Seq<char>>,
    pub path: Seq<Seq<char>>,
    pub start: nat,
    pub end: nat,
}

/// The abstract value of a [Clause]
pub enum ClauseView {
    Atom(AtomView),
    Placeh(PlaceholderView),
    Name(Seq<Seq<char>>),
    S(PType, Seq<ExprView>),
    Lambda(Seq<ExprView>, Seq<ExprView>),
}

/// The abstract value of an [Expr]
pub struct ExprView {
    pub value: ClauseView,
    pub start: nat,
    pub end: nat,
}

impl View for Import {
    type V = ImportView;

    open spec fn view(&self) -> ImportView {
        ImportView {
            name: match self.name {
                Some(n) => Some(n@),
                None => None,
            },
            path: self.path@,
            start: self.range.start as nat,
            end: self.range.end as nat,
        }
    }
}

/// The abstract value of an expression.
pub open spec fn expr_view(e: Expr) -> ExprView
    decreases e, 0int,
{
    let value = match e.value {
        Clause::Atom(a) => ClauseView::Atom(a@),
        Clause::Placeh(p) => ClauseView::Placeh(p@),
        Clause::Name(n) => ClauseView::Name(n@),
        Clause::S(p, v) => ClauseView::S(p, exprs_prefix(v@, v@.len() as int)),
        Clause::Lambda(a, b) => ClauseView::Lambda(
            exprs_prefix(a@, a@.len() as int),
            exprs_prefix(b@, b@.len() as int),
        ),
    };
    ExprView { value, start: e.range.start as nat, end: e.range.end as nat }
}

/// The abstract values of the first `n` expressions of `v`.
pub open spec fn exprs_prefix(v: Seq<Expr>, n: int) -> Seq<ExprView>
    decreases v, n,
{
    if n <= 0 || n > v.len() {
        Seq::empty()
    } else {
        exprs_prefix(v, n - 1).push(expr_view(v[n - 1]))
    }
}

/// The abstract values of a list of expressions.
pub open spec fn exprs_view(v: Seq<Expr>) -> Seq<ExprView> {
    exprs_prefix(v, v.len() as int)
}

proof fn lemma_prefix_push(v: Seq<Expr>, e: Expr, n: int)
    requires
        0 <= n <= v.len(),
    ensures
        exprs_prefix(v.push(e), n) == exprs_prefix(v, n),
    decreases n,
{
    if n > 0 {
        lemma_prefix_push(v, e, n - 1);
        assert(v.push(e)[n - 1] == v[n - 1]);
    }
}

/// Appending an expression appends its view.
pub proof fn lemma_exprs_push(v: Seq<Expr>, e: Expr)
    ensures
        exprs_view(v.push(e)) == exprs_view(v).push(expr_view(e)),
{
    lemma_prefix_push(v, e, v.len() as int);
    assert(v.push(e)[v.len() as int] == e);
}

/// The views of a list of expressions, one for each.
pub proof fn lemma_exprs_index(v: Seq<Expr>, n: int)
    requires
        0 <= n <= v.len(),
    ensures
        exprs_prefix(v, n).len() == n,
        forall|i: int| 0 <= i < n ==> #[trigger] exprs_prefix(v, n)[i] == expr_view(v[i]),
    decreases n,
{
    if n > 0 {
        lemma_exprs_index(v, n - 1);
    }
}

/// No expressions, no views.
pub proof fn lemma_exprs_empty(v: Seq<Expr>)
    requires
        v.len() == 0,
    ensures
        exprs_view(v) == Seq::<ExprView>::empty(),
{
}

impl View for Expr {
    type V = ExprView;

    open spec fn view(&self) -> ExprView {
        expr_view(*self)
    }
}

/// A constant declaration `const name := value`
#[derive(Debug)]
pub struct Constant {
    /// The name of the constant
    pub name: String,
    /// The value it stands for
    pub value: Expr,
}

/// A macro rule `pattern =prio=> template`
#[derive(Debug)]
pub struct Rule {
    /// The tokens the rule matches
    pub pattern: Vec<Expr>,
    /// The priority of the rule, as written between the `=` signs
    pub prio: Numeric,
    /// What a match is replaced with
    pub template: Vec<Expr>,
}

/// A submodule `module name ( ... )`
#[derive(Debug)]
pub struct ModuleBlock {
    /// The name of the submodule
    pub name: String,
    /// The lines inside it
    pub body: Vec<SourceLine>,
}

/// The things a module can declare
#[derive(Debug)]
pub enum MemberKind {
    /// A constant
    Constant(Constant),
    /// A macro rule
    Rule(Rule),
    /// A submodule
    Module(ModuleBlock),
}

/// A declaration, possibly exported
#[derive(Debug)]
pub struct Member {
    /// Whether the line started with `export`
    pub exported: bool,
    /// The declaration
    pub kind: MemberKind,
}

/// The meaning of a line of a module
#[derive(Debug)]
pub enum SourceLineKind {
    /// A documentation comment `--[| ... |]--`, without its bars
    Comment(String),
    /// An `import` line
    Import(Vec<Import>),
    /// An `export ::(...)` line: the exported names and their locations
    Export(Vec<(String, Range<usize>)>),
    /// A declaration
    Member(Member),
}

/// A line of a module and the byte range it covers
#[derive(Debug)]
pub struct SourceLine {
    /// Location in bytes
    pub range: Range<usize>,
    /// Meaning
    pub kind: SourceLineKind,
}

/// The abstract value of a [Constant]
pub struct ConstantView {
    pub name: Seq<char>,
    pub value: ExprView,
}

/// The abstract value of a [Rule]
pub struct RuleView {
    pub pattern: Seq<ExprView>,
    pub prio: Numeric,
    pub template: Seq<ExprView>,
}

/// The abstract value of a [ModuleBlock]
pub struct ModuleBlockView {
    pub name: Seq<char>,
    pub body: Seq<SourceLineView>,
}

/// The abstract value of a [MemberKind]
pub enum MemberKindView {
    Constant(ConstantView),
    Rule(RuleView),
    Module(ModuleBlockView),
}

/// The abstract value of a [Member]
pub struct MemberView {
    pub exported: bool,
    pub kind: MemberKindView,
}

/// The abstract value of a [SourceLineKind]
pub enum SourceLineKindView {
    Comment(Seq<char>),
    Import(Seq<ImportView>),
    Export(Seq<(Seq<char>, nat, nat)>),
    Member(MemberView),
}

/// The abstract value of a [SourceLine]
pub struct SourceLineView {
    pub kind: SourceLineKindView,
    pub start: nat,
    pub end: nat,
}

/// The abstract value of an exported name and its location.
pub open spec fn export_view(p: (String, Range<usize>)) -> (Seq<char>, nat, nat) {
    (p.0@, p.1.start as nat, p.1.end as nat)
}

/// The abstract value of a declaration.
pub open spec fn member_kind_view(k: MemberKind) -> MemberKindView
    decreases k, 0int,
{
    match k {
        MemberKind::Constant(c) => MemberKindView::Constant(c@),
        MemberKind::Rule(r) => MemberKindView::Rule(r@),
        MemberKind::Module(b) => MemberKindView::Module(
            ModuleBlockView { name: b.name@, body: lines_prefix(b.body@, b.body@.len() as int) },
        ),
    }
}

/// The abstract value of a line kind.
pub open spec fn kind_view(k: SourceLineKind) -> SourceLineKindView
    decreases k, 0int,
{
    match k {
        SourceLineKind::Comment(c) => SourceLineKindView::Comment(c@),
        SourceLineKind::Import(v) => SourceLineKindView::Import(v@.map_values(|i: Import| i@)),
        SourceLineKind::Export(v) => SourceLineKindView::Export(
            v@.map_values(|p: (String, Range<usize>)| export_view(p)),
        ),
        SourceLineKind::Member(m) => SourceLineKindView::Member(
            MemberView { exported: m.exported, kind: member_kind_view(m.kind) },
        ),
    }
}

/// The abstract values of the first `n` lines of `v`.
pub open spec fn lines_prefix(v: Seq<SourceLine>, n: int) -> Seq<SourceLineView>
    decreases v, n,
{
    if n <= 0 || n > v.len() {
        Seq::empty()
    } else {
        lines_prefix(v, n - 1).push(
            SourceLineView {
                kind: kind_view(v[n - 1].kind),
                start: v[n - 1].range.start as nat,
                end: v[n - 1].range.end as nat,
            },
        )
    }
}

/// The abstract values of a list of lines.
pub open spec fn lines_view(v: Seq<SourceLine>) -> Seq<SourceLineView> {
    lines_prefix(v, v.len() as int)
}

proof fn lemma_lines_prefix_push(v: Seq<SourceLine>, l: SourceLine, n: int)
    requires
        0 <= n <= v.len(),
    ensures
        lines_prefix(v.push(l), n) == lines_prefix(v, n),
    decreases n,
{
    if n > 0 {
        lemma_lines_prefix_push(v, l, n - 1);
        assert(v.push(l)[n - 1] == v[n - 1]);
    }
}

/// Appending a line appends its view.
pub proof fn lemma_lines_push(v: Seq<SourceLine>, l: SourceLine)
    ensures
        lines_view(v.push(l)) == lines_view(v).push(
            SourceLineView {
                kind: kind_view(l.kind),
                start: l.range.start as nat,
                end: l.range.end as nat,
            },
        ),
{
    lemma_lines_prefix_push(v, l, v.len() as int);
    assert(v.push(l)[v.len() as int] == l);
}

impl View for Constant {
    type V = ConstantView;

    open spec fn view(&self) -> ConstantView {
        ConstantView { name: self.name@, value: expr_view(self.value) }
    }
}

impl View for Rule {
    type V = RuleView;

    open spec fn view(&self) -> RuleView {
        RuleView {
            pattern: exprs_view(self.pattern@),
            prio: self.prio,
            template: exprs_view(self.template@),
        }
    }
}

impl View for ModuleBlock {
    type V = ModuleBlockView;

    open spec fn view(&self) -> ModuleBlockView {
        ModuleBlockView { name: self.name@, body: lines_view(self.body@) }
    }
}

impl View for MemberKind {
    type V = MemberKindView;

    open spec fn view(&self) -> MemberKindView {
        member_kind_view(*self)
    }
}

impl View for Member {
    type V = MemberView;

    open spec fn view(&self) -> MemberView {
        MemberView { exported: self.exported, kind: member_kind_view(self.kind) }
    }
}

impl View for SourceLineKind {
    type V = SourceLineKindView;

    open spec fn view(&self) -> SourceLineKindView {
        kind_view(*self)
    }
}

impl View for SourceLine {
    type V = SourceLineView;

    open spec fn view(&self) -> SourceLineView {
        SourceLineView {
            kind: kind_view(self.kind),
            start: self.range.start as nat,
            end: self.range.end as nat,
        }
    }
}

} // verus!
