//! Values of the standard library that need no interpreter: exit statuses,
//! runtime errors, panics, references to constants and the configuration of
//! the library.

use std::ops::Range;
use std::sync::atomic::{AtomicUsize, Ordering};
use vstd::prelude::*;

use crate::lexer::PType;
use crate::name::{seg_views, split_ns, split_ns_exec, Sym};
use crate::parsed::{Clause, ClauseView, Expr, ExprView};
use crate::text::{push_str, str_chars};

verus! {

/// An Orchid equivalent to Rust's binary exit status model
#[derive(Debug, Clone, Copy, PartialEq, Eq, Hash, Structural)]
pub enum ExitStatus {
    /// unix exit code 0
    Success,
    /// unix exit code 1
    Failure,
}

impl ExitStatus {
    /// The unix exit code of the status
    pub fn code(self) -> (r: u8)
        ensures
            r == (if self == ExitStatus::Success {
                0u8
            } else {
                1u8
            }),
    {
        match self {
            ExitStatus::Success => 0,
            ExitStatus::Failure => 1,
        }
    }

    /// Whether the status reports success
    pub fn is_success(self) -> (r: bool)
        ensures
            r == (self == ExitStatus::Success),
    {
        match self {
            ExitStatus::Success => true,
            ExitStatus::Failure => false,
        }
    }
}

/// Some external event prevented the operation from succeeding
#[derive(Debug, Clone)]
pub struct RuntimeError {
    message: String,
    operation: &'static str,
}

impl RuntimeError {
    /// What went wrong
    pub closed spec fn spec_message(&self) -> Seq<char> {
        self.message@
    }

    /// What was being done
    pub closed spec fn spec_operation(&self) -> Seq<char> {
        self.operation@
    }

    /// Construct, and wrap in a Result that never succeeds for easy
    /// short-circuiting
    pub fn fail<T>(message: String, operation: &'static str) -> (r: Result<T, RuntimeError>)
        ensures
            r matches Err(e) && e.spec_message() == message@ && e.spec_operation() == operation@,
    {
        Err(RuntimeError { message, operation })
    }

    /// Construct an error
    pub fn ext(message: String, operation: &'static str) -> (r: RuntimeError)
        ensures
            r.spec_message() == message@,
            r.spec_operation() == operation@,
    {
        RuntimeError { message, operation }
    }

    /// The message shown to the user: `Error while <operation>: <message>`
    pub fn describe(&self) -> (r: String)
        ensures
            r@ == "Error while "@ + self.spec_operation() + ": "@ + self.spec_message(),
    {
        let mut out = String::new();
        push_str(&mut out, "Error while ");
        push_str(&mut out, self.operation);
        push_str(&mut out, ": ");
        push_str(&mut out, self.message.as_str());
        out
    }
}

/// An unrecoverable error in Orchid land. Because Orchid is lazy, this only
/// invalidates expressions that reference the one that generated it.
#[derive(Debug, Clone)]
pub struct OrchidPanic(pub String);

impl OrchidPanic {
    /// The message shown to the user: `Orchid code panicked: <message>`
    pub fn describe(&self) -> (r: String)
        ensures
            r@ == "Orchid code panicked: "@ + self.0@,
    {
        let mut out = String::new();
        push_str(&mut out, "Orchid code panicked: ");
        push_str(&mut out, self.0.as_str());
        out
    }
}

/// Feature flags for the standard library.
#[derive(Debug, Clone, Copy, PartialEq, Eq)]
pub struct StdConfig {
    /// Whether impure functions (such as io::debug) are allowed. An embedder
    /// would typically disable this flag
    pub impure: bool,
}

impl Default for StdConfig {
    fn default() -> (r: Self)
        ensures
            !r.impure,
    {
        StdConfig { impure: false }
    }
}

/// The name of a constant given as `::` separated text. Every piece between
/// separators is a segment, so the text is never without segments.
pub fn refer(name: &'static str) -> (r: Sym)
    ensures
        r@ == split_ns(name@),
{
    let segs = split_ns_exec(&str_chars(name));
    assert(split_ns(name@).len() > 0);
    Sym::new(segs).unwrap()
}

/// A value that equals its own copies and only its own copies
#[derive(Debug, Clone, Copy, PartialEq, Eq, Structural, Ord)]
pub struct RefEqual(usize);

impl PartialOrd for RefEqual {
    /// Values are ordered by their ids
    fn partial_cmp(&self, other: &Self) -> (r: Option<std::cmp::Ordering>) {
        if self.0 < other.0 {
            Some(std::cmp::Ordering::Less)
        } else if self.0 == other.0 {
            Some(std::cmp::Ordering::Equal)
        } else {
            Some(std::cmp::Ordering::Greater)
        }
    }
}

impl vstd::std_specs::cmp::PartialOrdSpecImpl for RefEqual {
    open spec fn obeys_partial_cmp_spec() -> bool {
        true
    }

    open spec fn partial_cmp_spec(&self, other: &Self) -> Option<std::cmp::Ordering> {
        if self@ < other@ {
            Some(std::cmp::Ordering::Less)
        } else if self@ == other@ {
            Some(std::cmp::Ordering::Equal)
        } else {
            Some(std::cmp::Ordering::Greater)
        }
    }
}

impl View for RefEqual {
    type V = usize;

    /// The identifier
    closed spec fn view(&self) -> usize {
        self.0
    }
}

impl RefEqual {
    /// Create a new [RefEqual] which is unique among those drawn from the
    /// same counter. The counter hands out each number once (until it wraps
    /// around after `usize::MAX` draws); which number comes out depends on
    /// the other threads, so nothing is stated of it.
    pub fn new(counter: &AtomicUsize) -> (r: Self) {
        RefEqual(counter.fetch_add(1, Ordering::Relaxed))
    }

    /// Return the unique identifier of this [RefEqual] and its copies
    pub fn id(&self) -> (r: usize)
        ensures
            r == self@,
    {
        self.0
    }
}

/// A [RefEqual] equals exactly the values with its id: its copies, and no
/// value drawn apart from it; comparing two of them gives `Equal` exactly
/// then.
pub proof fn law_ref_equal_by_id(a: RefEqual, b: RefEqual)
    ensures
        (a == b) <==> (a@ == b@),
        (a == b) <==> (vstd::std_specs::cmp::PartialOrdSpec::partial_cmp_spec(&a, &b) == Some(
            std::cmp::Ordering::Equal,
        )),
{
}

/// Key for the type data of a protocol or type-tag module
pub const TYPE_KEY: &'static str = "__type_data__";

/// The constant reference to `name`, with no source location.
fn name_expr(name: Sym) -> (r: Expr)
    ensures
        r@ == (ExprView { value: ClauseView::Name(name@), start: 0, end: 0 }),
{
    Expr { value: Clause::Name(name), range: Range { start: 0, end: 0 } }
}

/// A call of `std::protocol::resolve` bound to the given protocol, the
/// expression `std::protocol::resolve name::__type_data__`.
pub fn gen_resolv(name: &'static str) -> (r: Expr)
    ensures
        r@ == (ExprView {
            value: ClauseView::S(
                PType::Par,
                seq![
                    ExprView {
                        value: ClauseView::Name(split_ns("std::protocol::resolve"@)),
                        start: 0,
                        end: 0,
                    },
                    ExprView {
                        value: ClauseView::Name(split_ns(name@).push(TYPE_KEY@)),
                        start: 0,
                        end: 0,
                    },
                ],
            ),
            start: 0,
            end: 0,
        }),
{
    let resolve = refer("std::protocol::resolve");
    let mut segs = split_ns_exec(&str_chars(name));
    let ghost before = seg_views(segs@);
    segs.push(TYPE_KEY.to_owned());
    assert(seg_views(segs@) =~= before.push(TYPE_KEY@));
    let target = Sym::new(segs).unwrap();
    let items = vec![name_expr(resolve), name_expr(target)];
    proof {
        crate::parsed::lemma_exprs_index(items@, 2);
        assert(crate::parsed::exprs_view(items@) =~= seq![items@[0]@, items@[1]@]);
    }
    Expr { value: Clause::S(PType::Par, items), range: Range { start: 0, end: 0 } }
}

} // verus!
