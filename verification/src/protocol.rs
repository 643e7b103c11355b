//! The lines that declare protocols and type tags: `protocol name ( .. )`,
//! `type name ( .. )`, and their anonymous forms `as_protocol ( .. )` and
//! `as_type ( .. )` that turn the enclosing module into one. Their bodies
//! hold ordinary lines and `impl name := value` lines. At run time a value
//! tagged with a type finds the implementation of a protocol in the tables
//! of the two.

use std::ops::Range;
use vstd::prelude::*;

use crate::custom_line::{
    custom_line, extract_impls, impl_readable, impls_from, spec_custom_line, Impl, ImplView,
};
use crate::errors::{expect_block, expect_name, spec_expect_block, spec_expect_name, ParseError, ParseErrorView};
use crate::frag::{spec_pop, Frag, FragView};
use crate::lexer::PType;
use crate::parsed::{lines_view, SourceLine, SourceLineView};
use crate::name::{join_ns, NameLike, Sym};
use crate::sourcefile::spec_split_lines;
use crate::stdlib::RuntimeError;
use crate::text::{push_str, str_eq};

verus! {

/// Name of the member the ID must be assigned to for a module to be
/// recognized as a protocol.
pub const PROTOCOL_ID_KEY: &'static str = "__protocol_id__";

/// Name of the member the ID must be assigned to for a module to be
/// recognized as a type tag.
pub const TAG_ID_KEY: &'static str = "__type_id__";

/// The line parsers this module defines
#[derive(Debug, Clone, Copy, PartialEq, Eq, Structural)]
pub enum TypeLine {
    /// `protocol name ( .. )`, may be exported
    Protocol,
    /// `type name ( .. )`, may be exported
    Type,
    /// `as_type ( .. )`, turns the enclosing module into a type
    AsType,
    /// `as_protocol ( .. )`, turns the enclosing module into a protocol
    AsProtocol,
}

/// Collection of all the line parsers defined here
pub fn parsers() -> (r: [TypeLine; 4])
    ensures
        r@ == seq![TypeLine::Protocol, TypeLine::Type, TypeLine::AsType, TypeLine::AsProtocol],
{
    [TypeLine::Protocol, TypeLine::Type, TypeLine::AsType, TypeLine::AsProtocol]
}

/// The keyword that starts the line
pub open spec fn spec_keyword(k: TypeLine) -> Seq<char> {
    match k {
        TypeLine::Protocol => "protocol"@,
        TypeLine::Type => "type"@,
        TypeLine::AsType => "as_type"@,
        TypeLine::AsProtocol => "as_protocol"@,
    }
}

/// Whether the line names the declared module; the anonymous forms declare
/// the enclosing one and cannot be exported.
pub open spec fn spec_named(k: TypeLine) -> bool {
    k is Protocol || k is Type
}

/// The member that identifies the counterpart: the implementations in a
/// protocol are keyed by types, those in a type by protocols.
pub open spec fn spec_counterpart_id(k: TypeLine) -> Seq<char> {
    if k is Protocol || k is AsProtocol {
        TAG_ID_KEY@
    } else {
        PROTOCOL_ID_KEY@
    }
}

impl TypeLine {
    /// The keyword that starts the line
    pub fn keyword(self) -> (r: &'static str)
        ensures
            r@ == spec_keyword(self),
    {
        match self {
            TypeLine::Protocol => "protocol",
            TypeLine::Type => "type",
            TypeLine::AsType => "as_type",
            TypeLine::AsProtocol => "as_protocol",
        }
    }

    /// Whether the line names the declared module
    pub fn named(self) -> (r: bool)
        ensures
            r == spec_named(self),
    {
        match self {
            TypeLine::Protocol | TypeLine::Type => true,
            _ => false,
        }
    }

    /// The lines added to the body of the declared module: the import of
    /// `std`, the member that identifies it, and the functions that use its
    /// type data.
    pub fn prelude(self) -> (r: &'static str)
        ensures
            r@ == if self is Protocol || self is AsProtocol {
                "import std\n        const __protocol_id__ := std::reflect::modname 1\n        const resolve := std::protocol::resolve __type_data__\n        const vcall := std::protocol::vcall __type_data__"@
            } else {
                "import std\n        const __type_id__ := std::reflect::modname 1\n        const unwrap := std::protocol::unwrap __type_data__\n        const wrap := std::protocol::wrap __type_data__"@
            },
    {
        match self {
            TypeLine::Protocol | TypeLine::AsProtocol => "import std\n        const __protocol_id__ := std::reflect::modname 1\n        const resolve := std::protocol::resolve __type_data__\n        const vcall := std::protocol::vcall __type_data__",
            _ => "import std\n        const __type_id__ := std::reflect::modname 1\n        const unwrap := std::protocol::unwrap __type_data__\n        const wrap := std::protocol::wrap __type_data__",
        }
    }

    /// The member that identifies the counterpart of the implementations
    pub fn counterpart_id(self) -> (r: &'static str)
        ensures
            r@ == spec_counterpart_id(self),
    {
        match self {
            TypeLine::Protocol | TypeLine::AsProtocol => TAG_ID_KEY,
            _ => PROTOCOL_ID_KEY,
        }
    }
}

/// A declaration of a protocol or a type tag
#[derive(Debug)]
pub struct TypeDecl {
    /// Whether the line was exported
    pub exported: bool,
    /// The declared module, or `None` for the enclosing one
    pub name: Option<String>,
    /// The ordinary lines of the body, each with the range of the declaration
    pub lines: Vec<SourceLine>,
    /// The implementations in the body, keyed by their counterpart's id
    pub impls: Vec<Impl>,
    /// The range of the declaration
    pub range: Range<usize>,
}

/// The abstract value of a [TypeDecl]
pub struct TypeDeclView {
    pub exported: bool,
    pub name: Option<Seq<char>>,
    pub lines: Seq<SourceLineView>,
    pub impls: Seq<ImplView>,
    pub start: nat,
    pub end: nat,
}

impl View for TypeDecl {
    type V = TypeDeclView;

    open spec fn view(&self) -> TypeDeclView {
        TypeDeclView {
            exported: self.exported,
            name: match self.name {
                Some(n) => Some(n@),
                None => None,
            },
            lines: lines_view(self.lines@),
            impls: self.impls@.map_values(|i: Impl| i@),
            start: self.range.start as nat,
            end: self.range.end as nat,
        }
    }
}

/// The declaration read from the parenthesized body.
pub open spec fn decl_body(
    k: TypeLine,
    exported: bool,
    name: Option<Seq<char>>,
    t: FragView,
    loc: (nat, nat),
) -> Result<TypeDeclView, ParseErrorView> {
    match spec_expect_block(t, PType::Par) {
        Err(e) => Err(e),
        Ok(body) => match impls_from(spec_split_lines(body), 0, spec_counterpart_id(k), loc) {
            Err(e) => Err(e),
            Ok((ls, is)) => Ok(
                TypeDeclView { exported, name, lines: ls, impls: is, start: loc.0, end: loc.1 },
            ),
        },
    }
}

/// What [parse_type_line] gives for a line: `None` where the line does not
/// start with the keyword of `k`.
pub open spec fn spec_type_line(f: FragView, k: TypeLine) -> Option<
    Result<TypeDeclView, ParseErrorView>,
> {
    match spec_custom_line(f, spec_keyword(k), spec_named(k)) {
        None => None,
        Some(Err(e)) => Some(Err(e)),
        Some(Ok((exported, t, loc))) => Some(
            if spec_named(k) {
                match spec_pop(t) {
                    Err(e) => Err(e),
                    Ok((n, t2)) => match spec_expect_name(n) {
                        Err(e) => Err(e),
                        Ok(name) => decl_body(k, exported, Some(name), t2, loc),
                    },
                }
            } else {
                decl_body(k, exported, None, t, loc)
            },
        ),
    }
}

/// The inputs on which every line of a parenthesized body can be read as an
/// `impl` line or an ordinary one without failing outright.
pub open spec fn body_readable(t: FragView) -> bool {
    spec_expect_block(t, PType::Par) matches Ok(body) ==> forall|j: int|
        0 <= j < spec_split_lines(body).len() ==> #[trigger] impl_readable(
            spec_split_lines(body)[j],
        )
}

/// The inputs on which [parse_type_line] does not fail outright: the body
/// after the header is readable.
pub open spec fn type_line_readable(f: FragView, k: TypeLine) -> bool {
    spec_custom_line(f, spec_keyword(k), spec_named(k)) matches Some(Ok((_, t, _))) ==> if spec_named(
        k,
    ) {
        spec_pop(t) matches Ok((_, t2)) ==> body_readable(t2)
    } else {
        body_readable(t)
    }
}

fn parse_decl_body(
    k: TypeLine,
    exported: bool,
    name: Option<String>,
    t: Frag<'_>,
    loc: Range<usize>,
) -> (r: Result<TypeDecl, ParseError>)
    requires
        body_readable(t@),
    ensures
        match r {
            Ok(d) => decl_body(
                k,
                exported,
                match name {
                    Some(n) => Some(n@),
                    None => None,
                },
                t@,
                (loc.start as nat, loc.end as nat),
            ) == Ok::<TypeDeclView, ParseErrorView>(d@),
            Err(e) => decl_body(
                k,
                exported,
                match name {
                    Some(n) => Some(n@),
                    None => None,
                },
                t@,
                (loc.start as nat, loc.end as nat),
            ) == Err::<TypeDeclView, ParseErrorView>(e@),
        },
{
    let body = expect_block(t, PType::Par)?;
    let range = Range { start: loc.start, end: loc.end };
    let (lines, impls) = extract_impls(body, k.counterpart_id(), range)?;
    Ok(TypeDecl { exported, name, lines, impls, range: loc })
}

/// Parse a `protocol`, `type`, `as_protocol` or `as_type` line, as `k`
/// says. `None` where the line does not start with the keyword.
pub fn parse_type_line(tail: Frag<'_>, k: TypeLine) -> (r: Option<Result<TypeDecl, ParseError>>)
    requires
        type_line_readable(tail@, k),
    ensures
        match r {
            None => spec_type_line(tail@, k) is None,
            Some(Ok(d)) => spec_type_line(tail@, k) == Some(
                Ok::<TypeDeclView, ParseErrorView>(d@),
            ),
            Some(Err(e)) => spec_type_line(tail@, k) == Some(
                Err::<TypeDeclView, ParseErrorView>(e@),
            ),
        },
{
    let (exported, t, loc) = match custom_line(tail, k.keyword(), k.named()) {
        None => {
            return None;
        },
        Some(Err(e)) => {
            return Some(Err(e));
        },
        Some(Ok(x)) => x,
    };
    if k.named() {
        let (n, t2) = match t.pop() {
            Ok(x) => x,
            Err(e) => {
                return Some(Err(e));
            },
        };
        let name = match expect_name(n) {
            Ok(name) => name,
            Err(e) => {
                return Some(Err(e));
            },
        };
        Some(parse_decl_body(k, exported, Some(name), t2, loc))
    } else {
        Some(parse_decl_body(k, exported, None, t, loc))
    }
}

/// Whether two names have the same segments
pub fn same_name(a: &Sym, b: &Sym) -> (r: bool)
    ensures
        r == (a@ == b@),
{
    let x = a.str_iter();
    let y = b.str_iter();
    if x.len() != y.len() {
        return false;
    }
    let mut i: usize = 0;
    while i < x.len()
        invariant
            i <= x@.len(),
            x@.len() == y@.len(),
            x@.len() == a@.len(),
            y@.len() == b@.len(),
            forall|k: int| 0 <= k < x@.len() ==> #[trigger] x@[k]@ == a@[k],
            forall|k: int| 0 <= k < y@.len() ==> #[trigger] y@[k]@ == b@[k],
            forall|k: int| 0 <= k < i ==> a@[k] == b@[k],
        decreases x@.len() - i,
    {
        if !str_eq(x[i], y[i]) {
            assert(a@[i as int] != b@[i as int]);
            return false;
        }
        i = i + 1;
    }
    assert(a@ =~= b@);
    true
}

/// The identity of a protocol or a type tag and its implementations, each
/// under the id of the counterpart it is for. Where an id occurs twice, the
/// later entry is the one that counts.
pub struct TypeData<X> {
    /// The name of the protocol or type tag, also used to key the tables of
    /// its counterparts
    pub id: Sym,
    /// The implementations, keyed by the ids of the counterparts
    pub impls: Vec<(Sym, X)>,
}

/// The table of implementations as keys and values
pub open spec fn table<X>(v: Seq<(Sym, X)>) -> Seq<(Seq<Seq<char>>, X)> {
    v.map_values(|p: (Sym, X)| (p.0@, p.1))
}

/// The implementation for `key`: the last entry under that key.
pub open spec fn spec_lookup<X>(impls: Seq<(Seq<Seq<char>>, X)>, key: Seq<Seq<char>>) -> Option<X>
    decreases impls.len(),
{
    if impls.len() == 0 {
        None
    } else if impls.last().0 == key {
        Some(impls.last().1)
    } else {
        spec_lookup(impls.drop_last(), key)
    }
}

/// The implementation for `key` in a table
pub fn lookup<'a, X>(impls: &'a Vec<(Sym, X)>, key: &Sym) -> (r: Option<&'a X>)
    ensures
        match spec_lookup(table(impls@), key@) {
            Some(x) => r matches Some(v) && *v == x,
            None => r is None,
        },
{
    let ghost t = table(impls@);
    let mut i: usize = impls.len();
    assert(t.take(i as int) =~= t);
    while i > 0
        invariant
            i <= impls@.len(),
            t == table(impls@),
            spec_lookup(t, key@) == spec_lookup(t.take(i as int), key@),
        decreases i,
    {
        let ghost pre = t.take(i as int);
        assert(pre.last() == (impls@[i - 1].0@, impls@[i - 1].1));
        assert(pre.drop_last() =~= t.take(i - 1));
        if same_name(&impls[i - 1].0, key) {
            return Some(&impls[i - 1].1);
        }
        i = i - 1;
    }
    assert(t.take(0) =~= Seq::<(Seq<Seq<char>>, X)>::empty());
    None
}

impl<X> TypeData<X> {
    /// Create a new type data record from a known name and impls
    pub fn new(id: Sym, impls: Vec<(Sym, X)>) -> (r: Self)
        ensures
            r.id == id,
            r.impls == impls,
    {
        TypeData { id, impls }
    }
}

/// A shared behaviour that may implement itself for types, and may be
/// implemented by types.
pub struct Protocol<X>(pub TypeData<X>);

/// A type marker that can be attached to values to form a [Tagged]
pub struct Tag<X>(pub TypeData<X>);

/// A value with a type [Tag]
pub struct Tagged<X> {
    /// Type information
    pub tag: Tag<X>,
    /// Value
    pub value: X,
}

/// How a protocol or a tag is shown in messages: `Protocol(name)` or
/// `Tag(name)`.
pub open spec fn shown(kind: Seq<char>, id: Seq<Seq<char>>) -> Seq<char> {
    kind + "("@ + join_ns(id) + ")"@
}

fn show_data<X>(kind: &str, d: &TypeData<X>) -> (r: String)
    ensures
        r@ == shown(kind@, d.id@),
{
    let mut out = String::new();
    push_str(&mut out, kind);
    push_str(&mut out, "(");
    let name = d.id.show();
    push_str(&mut out, name.as_str());
    push_str(&mut out, ")");
    out
}

impl<X> Protocol<X> {
    /// Create a new protocol with a pre-determined name
    pub fn new(id: Sym, impls: Vec<(Sym, X)>) -> (r: Self)
        ensures
            r.0.id == id,
            r.0.impls == impls,
    {
        Protocol(TypeData::new(id, impls))
    }
}

impl<X> Tag<X> {
    /// Create a new type-tag with a pre-determined name
    pub fn new(id: Sym, impls: Vec<(Sym, X)>) -> (r: Self)
        ensures
            r.0.id == id,
            r.0.impls == impls,
    {
        Tag(TypeData::new(id, impls))
    }

    /// Two tags are the same where their names are
    pub fn strict_eq(&self, other: &Self) -> (r: bool)
        ensures
            r == (self.0.id@ == other.0.id@),
    {
        same_name(&self.0.id, &other.0.id)
    }
}

/// The message of a failed [unwrap]
pub open spec fn unwrap_message(expected: Seq<Seq<char>>, got: Seq<Seq<char>>) -> Seq<char> {
    "expected "@ + shown("Tag"@, expected) + " but got "@ + shown("Tag"@, got)
}

/// What [unwrap] gives: the value where the tags have the same name,
/// otherwise the message of the error.
pub open spec fn spec_unwrap<X>(tag: Seq<Seq<char>>, tagged: Tagged<X>) -> Result<X, Seq<char>> {
    if tagged.tag.0.id@ == tag {
        Ok(tagged.value)
    } else {
        Err(unwrap_message(tag, tagged.tag.0.id@))
    }
}

/// Check and remove the type tag from a value
pub fn unwrap<'a, X>(tag: &Tag<X>, tagged: &'a Tagged<X>) -> (r: Result<&'a X, RuntimeError>)
    ensures
        match spec_unwrap(tag.0.id@, *tagged) {
            Ok(x) => r matches Ok(v) && *v == x,
            Err(m) => r matches Err(e) && e.spec_message() == m && e.spec_operation()
                == "unwrapping type-tagged value"@,
        },
{
    if tagged.tag.strict_eq(tag) {
        return Ok(&tagged.value);
    }
    let mut msg = String::new();
    push_str(&mut msg, "expected ");
    let want = show_data("Tag", &tag.0);
    push_str(&mut msg, want.as_str());
    push_str(&mut msg, " but got ");
    let got = show_data("Tag", &tagged.tag.0);
    push_str(&mut msg, got.as_str());
    RuntimeError::fail(msg, "unwrapping type-tagged value")
}

/// Attach a type tag to a value
pub fn wrap<X>(tag: Tag<X>, value: X) -> (r: Tagged<X>)
    ensures
        r == (Tagged { tag, value }),
{
    Tagged { tag, value }
}

/// Unwrapping with a tag a value wrapped with the same tag gives the value
/// back; with a tag of another name it fails.
pub proof fn law_unwrap_wrap<X>(tag: Tag<X>, other: Seq<Seq<char>>, value: X)
    ensures
        spec_unwrap(tag.0.id@, Tagged { tag, value }) == Ok::<X, Seq<char>>(value),
        other != tag.0.id@ ==> spec_unwrap(other, Tagged { tag, value }) is Err,
{
}

/// The message of a failed [resolve]
pub open spec fn resolve_message(tag: Seq<Seq<char>>, protocol: Seq<Seq<char>>) -> Seq<char> {
    shown("Tag"@, tag) + " doesn't implement "@ + shown("Protocol"@, protocol)
}

/// Find the implementation of a protocol for a value tagged with `tag`: the
/// protocol's table is searched for the tag first, then the tag's table for
/// the protocol.
pub fn resolve<'a, X>(protocol: &'a Protocol<X>, tag: &'a Tag<X>) -> (r: Result<&'a X, RuntimeError>)
    ensures
        match spec_lookup(table(protocol.0.impls@), tag.0.id@) {
            Some(x) => r matches Ok(v) && *v == x,
            None => match spec_lookup(table(tag.0.impls@), protocol.0.id@) {
                Some(x) => r matches Ok(v) && *v == x,
                None => r matches Err(e) && e.spec_message() == resolve_message(
                    tag.0.id@,
                    protocol.0.id@,
                ) && e.spec_operation() == "dispatching protocol"@,
            },
        },
{
    if let Some(implem) = lookup(&protocol.0.impls, &tag.0.id) {
        return Ok(implem);
    }
    if let Some(implem) = lookup(&tag.0.impls, &protocol.0.id) {
        return Ok(implem);
    }
    let mut msg = show_data("Tag", &tag.0);
    push_str(&mut msg, " doesn't implement ");
    let p = show_data("Protocol", &protocol.0);
    push_str(&mut msg, p.as_str());
    RuntimeError::fail(msg, "dispatching protocol")
}

} // verus!
