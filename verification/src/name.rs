//! Namespaced names. A segment is held as its text; two segments are the same
//! token exactly when their texts are equal.

use vstd::prelude::*;
use vstd::string::StrSliceExecFns;

use crate::text::{chars_to_string, push_str, str_chars, string_push};

verus! {

broadcast use vstd::string::group_string_axioms;

/// The texts of a list of segments.
pub open spec fn seg_views(v: Seq<String>) -> Seq<Seq<char>> {
    v.map_values(|s: String| s@)
}

/// Error produced when a non-empty name [VName] or [Sym] is constructed with an
/// empty sequence
#[derive(Debug, Copy, Clone, Default, Hash, PartialEq, Eq, PartialOrd, Ord)]
pub struct EmptyNameError;

/// A borrowed name fragment which can be empty. See [VPath] for the owned
/// variant.
pub struct PathSlice<'a>(pub &'a [String]);

impl<'a> View for PathSlice<'a> {
    type V = Seq<Seq<char>>;

    open spec fn view(&self) -> Seq<Seq<char>> {
        seg_views(self.0@)
    }
}

fn clone_segments(v: &[String]) -> (r: Vec<String>)
    ensures
        seg_views(r@) == seg_views(v@),
        r@.len() == v@.len(),
{
    let mut out: Vec<String> = Vec::new();
    let mut i: usize = 0;
    while i < v.len()
        invariant
            i <= v@.len(),
            out@.len() == i,
            forall|k: int| 0 <= k < i ==> #[trigger] out@[k]@ == v@[k]@,
        decreases v@.len() - i,
    {
        out.push(v[i].clone());
        i = i + 1;
    }
    assert(seg_views(out@) =~= seg_views(v@));
    out
}

fn segment_strs<'b>(v: &'b [String]) -> (r: Vec<&'b str>)
    ensures
        r@.len() == v@.len(),
        forall|k: int| 0 <= k < v@.len() ==> #[trigger] r@[k]@ == v@[k]@,
{
    let mut out: Vec<&'b str> = Vec::new();
    let mut i: usize = 0;
    while i < v.len()
        invariant
            i <= v@.len(),
            out@.len() == i,
            forall|k: int| 0 <= k < i ==> #[trigger] out@[k]@ == v@[k]@,
        decreases v@.len() - i,
    {
        out.push(v[i].as_str());
        i = i + 1;
    }
    out
}

fn concat_segments(a: Vec<String>, b: Vec<String>) -> (r: Vec<String>)
    ensures
        seg_views(r@) == seg_views(a@) + seg_views(b@),
{
    let mut out = a;
    let ghost va = seg_views(out@);
    let mut i: usize = 0;
    while i < b.len()
        invariant
            i <= b@.len(),
            seg_views(out@) == va + seg_views(b@).take(i as int),
        decreases b@.len() - i,
    {
        let c = b[i].clone();
        let ghost before = out@;
        out.push(c);
        assert(out@ == before.push(c));
        assert(seg_views(out@) =~= seg_views(before).push(c@));
        assert(seg_views(b@).take(i + 1) =~= seg_views(b@).take(i as int).push(b@[i as int]@));
        assert(seg_views(out@) =~= va + seg_views(b@).take(i + 1));
        i = i + 1;
    }
    assert(seg_views(b@).take(b@.len() as int) =~= seg_views(b@));
    out
}

impl<'a> PathSlice<'a> {
    /// Convert to an owned name fragment
    pub fn to_vpath(&self) -> (r: VPath)
        ensures
            r@ == self@,
    {
        VPath(clone_segments(self.0))
    }

    /// The segments as string slices
    pub fn str_iter(&self) -> (r: Vec<&'a str>)
        ensures
            r@.len() == self@.len(),
            forall|k: int| 0 <= k < self@.len() ==> #[trigger] r@[k]@ == self@[k],
    {
        segment_strs(self.0)
    }
}

/// A token path which may be empty. [VName] is the non-empty,
/// [PathSlice] is the borrowed version
#[derive(Debug, Clone, Default, Hash, PartialEq, Eq)]
pub struct VPath(pub Vec<String>);

impl View for VPath {
    type V = Seq<Seq<char>>;

    open spec fn view(&self) -> Seq<Seq<char>> {
        seg_views(self.0@)
    }
}

/// The index of the first `::` at or after `i`.
pub open spec fn find_ns(s: Seq<char>, i: int) -> Option<int>
    decreases s.len() - i,
{
    if i < 0 || i + 2 > s.len() {
        None
    } else if s[i] == ':' && s[i + 1] == ':' {
        Some(i)
    } else {
        find_ns(s, i + 1)
    }
}

/// The pieces of `s` between `::` separators, read left to right.
pub open spec fn split_ns(s: Seq<char>) -> Seq<Seq<char>>
    decreases s.len(),
{
    match find_ns(s, 0) {
        Some(k) => if 0 <= k && k + 2 <= s.len() {
            seq![s.take(k)] + split_ns(s.skip(k + 2))
        } else {
            seq![s]
        },
        None => seq![s],
    }
}

/// The segments of a `::` separated path; none for the empty text.
pub open spec fn spec_parse_path(s: Seq<char>) -> Seq<Seq<char>> {
    if s.len() == 0 {
        Seq::empty()
    } else {
        split_ns(s)
    }
}

/// The segments joined by `::`.
pub open spec fn join_ns(segs: Seq<Seq<char>>) -> Seq<char>
    decreases segs.len(),
{
    if segs.len() == 0 {
        Seq::empty()
    } else if segs.len() == 1 {
        segs[0]
    } else {
        segs[0] + seq![':', ':'] + join_ns(segs.drop_first())
    }
}

proof fn lemma_find_ns_bounds(s: Seq<char>, i: int)
    requires
        0 <= i,
    ensures
        find_ns(s, i) matches Some(k) ==> i <= k && k + 2 <= s.len() && s[k] == ':' && s[k
            + 1] == ':',
    decreases s.len() - i,
{
    if i + 2 <= s.len() && !(s[i] == ':' && s[i + 1] == ':') {
        lemma_find_ns_bounds(s, i + 1);
    }
}

fn find_ns_exec(s: &Vec<char>, i: usize) -> (r: Option<usize>)
    requires
        i <= s@.len(),
    ensures
        match r {
            None => find_ns(s@, i as int) is None,
            Some(k) => find_ns(s@, i as int) == Some(k as int) && i <= k && k + 2 <= s@.len(),
        },
{
    proof {
        lemma_find_ns_bounds(s@, i as int);
    }
    let n = s.len();
    let mut k = i;
    while n >= 2 && k <= n - 2
        invariant
            i <= k,
            n == s@.len(),
            find_ns(s@, i as int) == find_ns(s@, k as int),
        decreases n - k,
    {
        if s[k] == ':' && s[k + 1] == ':' {
            return Some(k);
        }
        k = k + 1;
    }
    None
}

pub(crate) fn split_ns_exec(s: &Vec<char>) -> (r: Vec<String>)
    ensures
        seg_views(r@) == split_ns(s@),
{
    let n = s.len();
    let mut out: Vec<String> = Vec::new();
    let mut start: usize = 0;
    assert(s@.skip(0) =~= s@);
    loop
        invariant
            start <= n,
            n == s@.len(),
            seg_views(out@) + split_ns(s@.skip(start as int)) == split_ns(s@),
        decreases n - start,
    {
        match find_ns_exec(s, start) {
            None => {
                proof {
                    lemma_find_ns_shift(s@, start as int, 0);
                }
                let piece = chars_to_string(&slice_chars(s, start, n));
                let ghost old_out = seg_views(out@);
                out.push(piece);
                assert(s@.skip(start as int) =~= s@.subrange(start as int, n as int));
                assert(seg_views(out@) =~= old_out + seq![s@.subrange(start as int, n as int)]);
                return out;
            },
            Some(k) => {
                proof {
                    lemma_find_ns_shift(s@, start as int, 0);
                }
                let piece = chars_to_string(&slice_chars(s, start, k));
                let ghost old_out = seg_views(out@);
                let ghost rest = s@.skip(start as int);
                out.push(piece);
                assert(rest.take(k - start) =~= s@.subrange(start as int, k as int));
                assert(rest.skip(k - start + 2) =~= s@.skip(k + 2));
                assert(seg_views(out@) =~= old_out + seq![s@.subrange(start as int, k as int)]);
                assert(split_ns(rest) == seq![rest.take(k - start)] + split_ns(rest.skip(k - start + 2)));
                assert(seg_views(out@) + split_ns(s@.skip(k + 2)) =~= old_out + split_ns(rest));
                start = k + 2;
            },
        }
    }
}

/// Searching a suffix finds the same separators, shifted.
proof fn lemma_find_ns_shift(s: Seq<char>, start: int, i: int)
    requires
        0 <= start <= s.len(),
        0 <= i,
    ensures
        match find_ns(s.skip(start), i) {
            None => find_ns(s, start + i) is None,
            Some(k) => find_ns(s, start + i) == Some(k + start),
        },
    decreases s.len() - start - i,
{
    if i + 2 > s.len() - start {
    } else if s.skip(start)[i] == ':' && s.skip(start)[i + 1] == ':' {
    } else {
        lemma_find_ns_shift(s, start, i + 1);
    }
}

fn slice_chars(s: &Vec<char>, lo: usize, hi: usize) -> (r: Vec<char>)
    requires
        lo <= hi <= s@.len(),
    ensures
        r@ == s@.subrange(lo as int, hi as int),
{
    let mut out: Vec<char> = Vec::new();
    let mut i = lo;
    while i < hi
        invariant
            lo <= i <= hi <= s@.len(),
            out@ == s@.subrange(lo as int, i as int),
        decreases hi - i,
    {
        out.push(s[i]);
        assert(s@.subrange(lo as int, i + 1) =~= s@.subrange(lo as int, i as int).push(s@[i as int]));
        i = i + 1;
    }
    out
}

impl VPath {
    /// Collect segments into a path
    pub fn new(items: Vec<String>) -> (r: Self)
        ensures
            r@ == seg_views(items@),
    {
        VPath(items)
    }

    /// Prepend some tokens to the path
    pub fn prefix(self, items: Vec<String>) -> (r: Self)
        ensures
            r@ == seg_views(items@) + self@,
    {
        VPath(concat_segments(items, self.0))
    }

    /// Append some tokens to the path
    pub fn suffix(self, items: Vec<String>) -> (r: Self)
        ensures
            r@ == self@ + seg_views(items@),
    {
        VPath(concat_segments(self.0, items))
    }

    /// Partition the string by `::` namespace separators
    pub fn parse(s: &str) -> (r: Self)
        ensures
            r@ == spec_parse_path(s@),
    {
        let chars = str_chars(s);
        if chars.len() == 0 {
            let r = VPath(Vec::new());
            assert(r@ =~= Seq::<Seq<char>>::empty());
            r
        } else {
            VPath(split_ns_exec(&chars))
        }
    }

    /// Walk over the segments
    pub fn str_iter(&self) -> (r: Vec<&str>)
        ensures
            r@.len() == self@.len(),
            forall|k: int| 0 <= k < self@.len() ==> #[trigger] r@[k]@ == self@[k],
    {
        segment_strs(self.0.as_slice())
    }

    /// The path as it is printed: the segments joined by `::`
    pub fn show(&self) -> (r: String)
        ensures
            r@ == join_ns(self@),
    {
        let parts = self.str_iter();
        assert(str_views(parts@) =~= self@);
        join_segments(&parts)
    }

    /// Try to convert into non-empty version
    pub fn into_name(self) -> (r: Result<VName, EmptyNameError>)
        ensures
            match r {
                Ok(n) => self@.len() > 0 && n@ == self@,
                Err(_) => self@.len() == 0,
            },
    {
        VName::new(self.0)
    }

    /// Add a token to the path. Since now we know that it can't be empty, turn it
    /// into a name.
    pub fn as_prefix_of(self, name: String) -> (r: VName)
        ensures
            r@ == self@.push(name@),
            r.wf(),
    {
        let mut v = self.0;
        let ghost old = seg_views(v@);
        v.push(name);
        assert(seg_views(v@) =~= old.push(name@));
        VName(v)
    }

    /// Add a token to the beginning of the path. Since now we know that it
    /// can't be empty, turn it into a name.
    pub fn as_suffix_of(self, name: String) -> (r: VName)
        ensures
            r@ == seq![name@] + self@,
            r.wf(),
    {
        let mut head: Vec<String> = Vec::new();
        head.push(name);
        let v = concat_segments(head, self.0);
        VName(v)
    }
}

/// A mutable representation of a namespaced identifier of at least one segment.
///
/// These names may be relative or otherwise partially processed.
///
/// See also [Sym] for the immutable representation, and [VPath] for possibly
/// empty values
#[derive(Debug, Clone, Hash, PartialEq, Eq)]
pub struct VName(Vec<String>);

impl View for VName {
    type V = Seq<Seq<char>>;

    closed spec fn view(&self) -> Seq<Seq<char>> {
        seg_views(self.0@)
    }
}

impl VName {
    /// A name holds at least one segment.
    pub open spec fn wf(&self) -> bool {
        self@.len() > 0
    }

    /// Assert that the sequence isn't empty and wrap it in [VName] to represent
    /// this invariant
    pub fn new(items: Vec<String>) -> (r: Result<Self, EmptyNameError>)
        ensures
            match r {
                Ok(n) => items@.len() > 0 && n@ == seg_views(items@) && n.wf(),
                Err(_) => items@.len() == 0,
            },
    {
        if items.len() == 0 {
            Err(EmptyNameError)
        } else {
            Ok(VName(items))
        }
    }

    /// Unwrap the enclosed vector
    pub fn into_vec(self) -> (r: Vec<String>)
        ensures
            seg_views(r@) == self@,
    {
        self.0
    }

    /// Get a reference to the enclosed vector
    pub fn vec(&self) -> (r: &Vec<String>)
        ensures
            seg_views(r@) == self@,
    {
        &self.0
    }

    /// Intern the name and return a [Sym]
    pub fn to_sym(&self) -> (r: Sym)
        ensures
            r@ == self@,
    {
        Sym(clone_segments(self.0.as_slice()))
    }

    /// The first segment and the rest
    pub fn split_first(&self) -> (r: (String, &[String]))
        requires
            self.wf(),
        ensures
            r.0@ == self@[0],
            seg_views(r.1@) == self@.drop_first(),
    {
        let (h, t) = self.0.as_slice().split_at(1);
        assert(seg_views(t@) =~= self@.drop_first());
        (h[0].clone(), t)
    }

    /// The last segment and the rest
    pub fn split_last(&self) -> (r: (String, &[String]))
        requires
            self.wf(),
        ensures
            r.0@ == self@.last(),
            seg_views(r.1@) == self@.drop_last(),
    {
        let n = self.0.len();
        let (b, f) = self.0.as_slice().split_at(n - 1);
        assert(seg_views(b@) =~= self@.drop_last());
        (f[0].clone(), b)
    }

    /// If this name has only one segment, return it
    pub fn as_root(&self) -> (r: Option<String>)
        ensures
            match r {
                Some(s) => self@.len() == 1 && s@ == self@[0],
                None => self@.len() != 1,
            },
    {
        if self.0.len() == 1 {
            Some(self.0[0].clone())
        } else {
            None
        }
    }

    /// Prepend the segments to this name
    pub fn prefix(self, items: Vec<String>) -> (r: Self)
        ensures
            r@ == seg_views(items@) + self@,
            self.wf() ==> r.wf(),
    {
        VName(concat_segments(items, self.0))
    }

    /// Append the segments to this name
    pub fn suffix(self, items: Vec<String>) -> (r: Self)
        ensures
            r@ == self@ + seg_views(items@),
            self.wf() ==> r.wf(),
    {
        VName(concat_segments(self.0, items))
    }

    /// Read a `::` separated namespaced name
    pub fn parse(s: &str) -> (r: Result<Self, EmptyNameError>)
        ensures
            match r {
                Ok(n) => n@ == spec_parse_path(s@) && n.wf(),
                Err(_) => s@.len() == 0,
            },
    {
        let p = VPath::parse(s);
        let r = Self::new(p.0);
        proof {
            if s@.len() > 0 {
                lemma_split_nonempty(s@);
            }
        }
        r
    }

    /// Read a name from a string literal which can be known not to be empty
    pub fn literal(s: &'static str) -> (r: Self)
        requires
            s@.len() > 0,
        ensures
            r@ == spec_parse_path(s@),
            r.wf(),
    {
        match Self::parse(s) {
            Ok(n) => n,
            Err(_) => {
                assert(false);
                VName(Vec::new())
            },
        }
    }

    /// Find the longest shared prefix of this name and another sequence
    pub fn coprefix<'b>(&'b self, other: &[String]) -> (r: &'b [String])
        ensures
            seg_views(r@) == self@.take(common_len(self@, seg_views(other@))),
    {
        let n = self.0.len();
        let m = other.len();
        let mut i: usize = 0;
        while i < n && i < m && string_eq(&self.0[i], &other[i])
            invariant
                i <= n,
                n == self.0@.len(),
                m == other@.len(),
                common_len(self@, seg_views(other@)) == common_from(
                    self@,
                    seg_views(other@),
                    i as int,
                ),
            decreases n - i,
        {
            i = i + 1;
        }
        let (pre, _) = self.0.as_slice().split_at(i);
        assert(seg_views(pre@) =~= self@.take(i as int));
        pre
    }

    /// The segments of the name
    pub fn iter(&self) -> (r: Vec<String>)
        ensures
            seg_views(r@) == self@,
    {
        clone_segments(self.0.as_slice())
    }

    /// Convert to [PathSlice]
    pub fn as_path_slice(&self) -> (r: PathSlice)
        ensures
            r@ == self@,
    {
        PathSlice(self.0.as_slice())
    }
}

/// The length of the longest common prefix of `a` and `b`, counting from `i`.
pub open spec fn common_from(a: Seq<Seq<char>>, b: Seq<Seq<char>>, i: int) -> int
    decreases a.len() - i,
{
    if 0 <= i < a.len() && i < b.len() && a[i] == b[i] {
        common_from(a, b, i + 1)
    } else {
        i
    }
}

/// The length of the longest common prefix of `a` and `b`.
pub open spec fn common_len(a: Seq<Seq<char>>, b: Seq<Seq<char>>) -> int {
    common_from(a, b, 0)
}

fn string_eq(a: &String, b: &String) -> (r: bool)
    ensures
        r == (a@ == b@),
{
    a.eq(b)
}

proof fn lemma_split_nonempty(s: Seq<char>)
    ensures
        split_ns(s).len() > 0,
{
    match find_ns(s, 0) {
        Some(k) => {},
        None => {},
    }
}

/// An interned representation of a namespaced identifier.
///
/// These names are always absolute.
///
/// See also [VName]
#[derive(Debug, Clone, Hash, PartialEq, Eq)]
pub struct Sym(Vec<String>);

impl View for Sym {
    type V = Seq<Seq<char>>;

    closed spec fn view(&self) -> Seq<Seq<char>> {
        seg_views(self.0@)
    }
}

impl Sym {
    /// A name holds at least one segment.
    pub open spec fn wf(&self) -> bool {
        self@.len() > 0
    }

    /// Assert that the sequence isn't empty and wrap it in a [Sym] to
    /// represent this invariant
    pub fn new(v: Vec<String>) -> (r: Result<Self, EmptyNameError>)
        ensures
            match r {
                Ok(n) => v@.len() > 0 && n@ == seg_views(v@) && n.wf(),
                Err(_) => v@.len() == 0,
            },
    {
        if v.len() == 0 {
            Err(EmptyNameError)
        } else {
            Ok(Sym(v))
        }
    }

    /// Read a `::` separated namespaced name.
    pub fn parse(s: &str) -> (r: Result<Self, EmptyNameError>)
        ensures
            match r {
                Ok(n) => n@ == spec_parse_path(s@) && n.wf(),
                Err(_) => s@.len() == 0,
            },
    {
        let n = VName::parse(s)?;
        Ok(Sym(n.into_vec()))
    }

    /// Parse a string known not to be empty
    pub fn literal(s: &'static str) -> (r: Self)
        requires
            s@.len() > 0,
        ensures
            r@ == spec_parse_path(s@),
            r.wf(),
    {
        Sym(VName::literal(s).into_vec())
    }

    /// The segments of the name
    pub fn iter(&self) -> (r: Vec<String>)
        ensures
            seg_views(r@) == self@,
    {
        clone_segments(self.0.as_slice())
    }

    /// Like Slice's split_last, except this slice is never empty
    pub fn split_last(&self) -> (r: (String, PathSlice))
        requires
            self.wf(),
        ensures
            r.0@ == self@.last(),
            r.1@ == self@.drop_last(),
    {
        let n = self.0.len();
        let (b, f) = self.0.as_slice().split_at(n - 1);
        assert(seg_views(b@) =~= self@.drop_last());
        (f[0].clone(), PathSlice(b))
    }

    /// Like Slice's split_first, except this slice is never empty
    pub fn split_first(&self) -> (r: (String, PathSlice))
        requires
            self.wf(),
        ensures
            r.0@ == self@[0],
            r.1@ == self@.drop_first(),
    {
        let (h, t) = self.0.as_slice().split_at(1);
        assert(seg_views(t@) =~= self@.drop_first());
        (h[0].clone(), PathSlice(t))
    }

    /// Extern the sym for editing
    pub fn to_vname(&self) -> (r: VName)
        ensures
            r@ == self@,
    {
        VName(clone_segments(self.0.as_slice()))
    }

    /// Convert to [PathSlice]
    pub fn as_path_slice(&self) -> (r: PathSlice)
        ensures
            r@ == self@,
    {
        PathSlice(self.0.as_slice())
    }
}

/// The segments joined by `sep`.
pub open spec fn join_sep(segs: Seq<Seq<char>>, sep: char) -> Seq<char>
    decreases segs.len(),
{
    if segs.len() == 0 {
        Seq::empty()
    } else if segs.len() == 1 {
        segs[0]
    } else {
        segs[0] + seq![sep] + join_sep(segs.drop_first(), sep)
    }
}

/// The texts of some string slices.
pub open spec fn str_views(v: Seq<&str>) -> Seq<Seq<char>> {
    v.map_values(|p: &str| p@)
}

/// The pieces joined by `::`.
fn join_segments(parts: &Vec<&str>) -> (r: String)
    ensures
        r@ == join_ns(str_views(parts@)),
{
    let ghost segs = str_views(parts@);
    let n = parts.len();
    let mut i: usize = n;
    let mut tail = String::new();
    while i > 0
        invariant
            i <= n,
            n == parts@.len(),
            n == segs.len(),
            segs == str_views(parts@),
            i < n ==> tail@ == join_ns(segs.skip(i as int)),
            i == n ==> tail@ == Seq::<char>::empty(),
        decreases i,
    {
        let mut piece = String::new();
        assert(parts@[i - 1]@ == segs[i - 1]);
        push_str(&mut piece, parts[i - 1]);
        if i < n {
            push_str(&mut piece, "::");
            push_str(&mut piece, tail.as_str());
            assert(segs.skip(i - 1).drop_first() =~= segs.skip(i as int));
            assert(segs.skip(i - 1)[0] == segs[i - 1]);
            proof {
                reveal_strlit("::");
            }
            assert("::"@ =~= seq![':', ':']);
            assert(piece@ =~= segs[i - 1] + seq![':', ':'] + join_ns(segs.skip(i as int)));
        } else {
            assert(segs.skip(i - 1) =~= seq![segs[i - 1]]);
            assert(piece@ =~= segs[i - 1]);
        }
        tail = piece;
        i = i - 1;
    }
    if n > 0 {
        assert(segs.skip(0) =~= segs);
    } else {
        assert(segs =~= Seq::<Seq<char>>::empty());
    }
    tail
}

/// An abstraction over names so that they can be handled together. The
/// names can never be empty
pub trait NameLike: Sized {
    /// The segments of the name
    spec fn segments(&self) -> Seq<Seq<char>>;

    /// The segments as string slices
    fn str_iter(&self) -> (r: Vec<&str>)
        ensures
            r@.len() == self.segments().len(),
            forall|k: int| 0 <= k < r@.len() ==> #[trigger] r@[k]@ == self.segments()[k],
    ;

    /// Fully resolve the name for printing
    fn to_strv(&self) -> (r: Vec<String>)
        ensures
            seg_views(r@) == self.segments(),
    {
        let parts = self.str_iter();
        let mut out: Vec<String> = Vec::new();
        let mut i: usize = 0;
        while i < parts.len()
            invariant
                i <= parts@.len(),
                parts@.len() == self.segments().len(),
                forall|k: int| 0 <= k < parts@.len() ==> #[trigger] parts@[k]@ == self.segments()[k],
                out@.len() == i,
                forall|k: int| 0 <= k < i ==> #[trigger] out@[k]@ == self.segments()[k],
            decreases parts@.len() - i,
        {
            out.push(parts[i].to_owned());
            i = i + 1;
        }
        assert(seg_views(out@) =~= self.segments());
        out
    }

    /// Format the name as an approximate filename: the segments joined by
    /// `/`, with `.orc` appended
    fn as_src_path(&self) -> (r: String)
        ensures
            r@ == join_sep(self.segments(), '/') + ".orc"@,
    {
        let parts = self.str_iter();
        let ghost segs = self.segments();
        let mut out = String::new();
        let n = parts.len();
        let mut i: usize = n;
        let mut tail = String::new();
        while i > 0
            invariant
                i <= n,
                n == parts@.len(),
                n == segs.len(),
                forall|k: int| 0 <= k < n ==> #[trigger] parts@[k]@ == segs[k],
                i < n ==> tail@ == join_sep(segs.skip(i as int), '/'),
                i == n ==> tail@ == Seq::<char>::empty(),
            decreases i,
        {
            let mut piece = String::new();
            push_str(&mut piece, parts[i - 1]);
            if i < n {
                string_push(&mut piece, '/');
                push_str(&mut piece, tail.as_str());
                assert(segs.skip(i - 1).drop_first() =~= segs.skip(i as int));
            } else {
                assert(segs.skip(i - 1) =~= seq![segs[i - 1]]);
            }
            tail = piece;
            i = i - 1;
        }
        if n > 0 {
            assert(segs.skip(0) =~= segs);
        }
        push_str(&mut out, tail.as_str());
        push_str(&mut out, ".orc");
        out
    }

    /// The name as it is printed: the segments joined by `::`
    fn show(&self) -> (r: String)
        ensures
            r@ == join_ns(self.segments()),
    {
        let parts = self.str_iter();
        assert(str_views(parts@) =~= self.segments());
        join_segments(&parts)
    }

    /// The number of segments in the name
    fn len(&self) -> (r: usize)
        ensures
            r == self.segments().len(),
    {
        self.str_iter().len()
    }
}

impl NameLike for Sym {
    open spec fn segments(&self) -> Seq<Seq<char>> {
        self@
    }

    fn str_iter(&self) -> (r: Vec<&str>) {
        self.as_path_slice().str_iter()
    }
}

impl NameLike for VName {
    open spec fn segments(&self) -> Seq<Seq<char>> {
        self@
    }

    fn str_iter(&self) -> (r: Vec<&str>) {
        self.as_path_slice().str_iter()
    }
}

proof fn lemma_common_from(a: Seq<Seq<char>>, b: Seq<Seq<char>>, i: int)
    requires
        0 <= i <= a.len(),
        i <= b.len(),
        a.take(i) == b.take(i),
    ensures
        i <= common_from(a, b, i) <= a.len(),
        common_from(a, b, i) <= b.len(),
        a.take(common_from(a, b, i)) == b.take(common_from(a, b, i)),
        common_from(a, b, i) < a.len() && common_from(a, b, i) < b.len() ==> a[common_from(a, b, i)]
            != b[common_from(a, b, i)],
    decreases a.len() - i,
{
    if i < a.len() && i < b.len() && a[i] == b[i] {
        assert(a.take(i + 1) =~= a.take(i).push(a[i]));
        assert(b.take(i + 1) =~= b.take(i).push(b[i]));
        lemma_common_from(a, b, i + 1);
    }
}

/// [VName::coprefix] finds the longest common prefix: its length fits both
/// names, both agree on it, and they differ right after it unless one of
/// them ends there.
pub proof fn law_coprefix_longest(a: Seq<Seq<char>>, b: Seq<Seq<char>>)
    ensures
        0 <= common_len(a, b) <= a.len(),
        common_len(a, b) <= b.len(),
        a.take(common_len(a, b)) == b.take(common_len(a, b)),
        common_len(a, b) < a.len() && common_len(a, b) < b.len() ==> a[common_len(a, b)] != b[common_len(
            a,
            b,
        )],
{
    assert(a.take(0) =~= b.take(0));
    lemma_common_from(a, b, 0);
}

proof fn lemma_find_ns_none(s: Seq<char>, i: int)
    requires
        0 <= i,
        forall|k: int| 0 <= k < s.len() ==> s[k] != ':',
    ensures
        find_ns(s, i) is None,
    decreases s.len() - i,
{
    if i + 2 <= s.len() {
        lemma_find_ns_none(s, i + 1);
    }
}

proof fn lemma_find_ns_first(seg: Seq<char>, rest: Seq<char>, i: int)
    requires
        0 <= i <= seg.len(),
        forall|k: int| 0 <= k < seg.len() ==> seg[k] != ':',
    ensures
        find_ns(seg + seq![':', ':'] + rest, i) == Some(seg.len() as int),
    decreases seg.len() - i,
{
    let t = seg + seq![':', ':'] + rest;
    if i < seg.len() {
        assert(t[i] == seg[i]);
        lemma_find_ns_first(seg, rest, i + 1);
    } else {
        assert(t[i] == ':' && t[i + 1] == ':');
    }
}

/// Splitting a text at its `::` separators and joining the pieces with `::`
/// gives the text back.
pub proof fn law_join_split(s: Seq<char>)
    ensures
        join_ns(split_ns(s)) == s,
    decreases s.len(),
{
    match find_ns(s, 0) {
        Some(k) => {
            lemma_find_ns_bounds(s, 0);
            law_join_split(s.skip(k + 2));
            let rest = split_ns(s.skip(k + 2));
            lemma_split_nonempty(s.skip(k + 2));
            assert((seq![s.take(k)] + rest).drop_first() =~= rest);
            assert(s.take(k) + seq![':', ':'] + s.skip(k + 2) =~= s);
        },
        None => {},
    }
}

/// A path whose segments hold no `:` prints to a text that reads back as the
/// same path, unless it prints to the empty text (the path with one empty
/// segment), which reads back as no segments.
pub proof fn law_split_join(segs: Seq<Seq<char>>)
    requires
        segs.len() > 0,
        forall|k: int, j: int| 0 <= k < segs.len() && 0 <= j < segs[k].len() ==> segs[k][j] != ':',
    ensures
        split_ns(join_ns(segs)) == segs,
        join_ns(segs).len() > 0 ==> spec_parse_path(join_ns(segs)) == segs,
    decreases segs.len(),
{
    if segs.len() == 1 {
        lemma_find_ns_none(segs[0], 0);
        assert(split_ns(segs[0]) == seq![segs[0]]);
        assert(seq![segs[0]] =~= segs);
    } else {
        let rest = segs.drop_first();
        law_split_join(rest);
        let t = segs[0] + seq![':', ':'] + join_ns(rest);
        lemma_find_ns_first(segs[0], join_ns(rest), 0);
        let k = segs[0].len() as int;
        assert(t.take(k) =~= segs[0]);
        assert(t.skip(k + 2) =~= join_ns(rest));
        assert(seq![segs[0]] + rest =~= segs);
    }
}

/// A path printed with [VPath::show] reads back with [VPath::parse] as the
/// same path where no segment holds a `:`, except the path of one empty
/// segment, which prints to the empty text and reads back as no segments.
pub proof fn law_print_parse_path(segs: Seq<Seq<char>>)
    requires
        forall|k: int, j: int| 0 <= k < segs.len() && 0 <= j < segs[k].len() ==> segs[k][j] != ':',
        !(segs.len() == 1 && segs[0].len() == 0),
    ensures
        spec_parse_path(join_ns(segs)) == segs,
{
    if segs.len() == 0 {
        assert(join_ns(segs).len() == 0);
        assert(spec_parse_path(join_ns(segs)) =~= segs);
    } else {
        law_split_join(segs);
        if segs.len() == 1 {
            assert(join_ns(segs) == segs[0]);
        } else {
            assert(join_ns(segs) == segs[0] + seq![':', ':'] + join_ns(segs.drop_first()));
        }
    }
}

} // verus!
