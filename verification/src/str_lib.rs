//! The string functions of the standard library. Strings are indexed by
//! extended grapheme clusters, as the `unicode-segmentation` crate finds
//! them.

use unicode_segmentation::UnicodeSegmentation;
use vstd::prelude::*;

use crate::stdlib::RuntimeError;
use crate::text::{byte_len, lemma_byte_len_encode, push_str};

verus! {

broadcast use vstd::string::group_string_axioms;

/// The extended grapheme clusters of a text, in order.
pub uninterp spec fn grapheme_clusters(s: Seq<char>) -> Seq<Seq<char>>;

/// Calls `UnicodeSegmentation::graphemes` on `s` with extended clusters and
/// collects them. The iterator yields consecutive non-empty slices of `s`
/// from its start to its end, so the clusters are not empty and together
/// spell `s`; where the boundaries fall is what the crate computes, and is
/// left to the name.
#[verifier::external_body]
fn graphemes(s: &str) -> (r: Vec<&str>)
    ensures
        r@.map_values(|g: &str| g@) == grapheme_clusters(s@),
        r@.map_values(|g: &str| g@).flatten() == s@,
        forall|k: int| 0 <= k < r@.len() ==> #[trigger] r@[k]@.len() > 0,
{
    s.graphemes(true).collect()
}

/// The text spelled by the clusters `v[lo..hi]`.
fn join_range(v: &Vec<&str>, lo: usize, hi: usize) -> (r: String)
    requires
        lo <= hi <= v@.len(),
    ensures
        r@ == v@.map_values(|g: &str| g@).subrange(lo as int, hi as int).flatten(),
{
    let ghost gs = v@.map_values(|g: &str| g@);
    let mut out = String::new();
    let mut k = lo;
    while k < hi
        invariant
            lo <= k <= hi <= v@.len(),
            gs == v@.map_values(|g: &str| g@),
            out@ == gs.subrange(lo as int, k as int).flatten(),
        decreases hi - k,
    {
        let ghost before = out@;
        push_str(&mut out, v[k]);
        proof {
            lemma_flatten_push(gs.subrange(lo as int, k as int), gs[k as int]);
            assert(gs.subrange(lo as int, k + 1) =~= gs.subrange(lo as int, k as int).push(gs[k as int]));
        }
        k = k + 1;
    }
    out
}

/// Flattening distributes over pushing one more sequence.
proof fn lemma_flatten_push(v: Seq<Seq<char>>, x: Seq<char>)
    ensures
        v.push(x).flatten() == v.flatten() + x,
    decreases v.len(),
{
    if v.len() == 0 {
        assert(v.push(x).drop_first() =~= Seq::<Seq<char>>::empty());
        assert(v.push(x).first() == x);
        assert(v.push(x).flatten() == x + v.push(x).drop_first().flatten());
        assert(x + Seq::<char>::empty() =~= x);
        assert(v.flatten() + x =~= x);
    } else {
        lemma_flatten_push(v.drop_first(), x);
        assert(v.push(x).drop_first() =~= v.drop_first().push(x));
        assert(v.first() + (v.drop_first().flatten() + x) =~= (v.first() + v.drop_first().flatten()) + x);
    }
}

/// The clusters before and after any cut spell the whole text.
proof fn lemma_flatten_split(g: Seq<Seq<char>>, k: int)
    requires
        0 <= k <= g.len(),
    ensures
        g.take(k).flatten() + g.skip(k).flatten() == g.flatten(),
    decreases k,
{
    if k == 0 {
        assert(g.take(0) =~= Seq::<Seq<char>>::empty());
        assert(g.skip(0) =~= g);
        assert(Seq::<char>::empty() + g.flatten() =~= g.flatten());
    } else {
        lemma_flatten_split(g, k - 1);
        assert(g.take(k) =~= g.take(k - 1).push(g[k - 1]));
        lemma_flatten_push(g.take(k - 1), g[k - 1]);
        assert(g.skip(k - 1).first() == g[k - 1]);
        assert(g.skip(k - 1).drop_first() =~= g.skip(k));
        assert(g.take(k - 1).flatten() + g[k - 1] + g.skip(k).flatten() =~= g.take(k - 1).flatten() + (
        g[k - 1] + g.skip(k).flatten()));
    }
}

/// The number of characters, that is grapheme clusters, of a string
pub fn len(s: &str) -> (r: usize)
    ensures
        r == grapheme_clusters(s@).len(),
{
    graphemes(s).len()
}

/// The number of bytes of a string in UTF-8
pub fn size(s: &str) -> (r: usize)
    ensures
        r == byte_len(s@),
{
    let b = s.as_bytes();
    proof {
        lemma_byte_len_encode(s@);
    }
    b.len()
}

/// Join two strings
pub fn concat(a: String, b: &str) -> (r: String)
    ensures
        r@ == a@ + b@,
{
    let mut a = a;
    push_str(&mut a, b);
    a
}

/// Split a string after its first `i` characters; past the end, the whole
/// string is on the left.
pub fn split(s: &str, i: usize) -> (r: (String, String))
    ensures
        ({
            let g = grapheme_clusters(s@);
            let k = if i <= g.len() {
                i as int
            } else {
                g.len() as int
            };
            r.0@ == g.take(k).flatten() && r.1@ == g.skip(k).flatten()
        }),
        r.0@ + r.1@ == s@,
{
    let gs = graphemes(s);
    let n = gs.len();
    let k = if i <= n {
        i
    } else {
        n
    };
    let left = join_range(&gs, 0, k);
    let right = join_range(&gs, k, n);
    proof {
        let g = gs@.map_values(|x: &str| x@);
        assert(g.subrange(0, k as int) =~= g.take(k as int));
        assert(g.subrange(k as int, n as int) =~= g.skip(k as int));
        lemma_flatten_split(g, k as int);
    }
    (left, right)
}

/// What [slice] gives: `len` characters from character `i`. From the start
/// of the string fewer are accepted where the string is shorter; elsewhere
/// the slice must fit in the string.
pub open spec fn spec_slice(g: Seq<Seq<char>>, i: int, len: int) -> Option<Seq<char>> {
    if i == 0 {
        Some(g.take(if len <= g.len() { len } else { g.len() as int }).flatten())
    } else if i <= g.len() && i + len <= g.len() {
        Some(g.subrange(i, i + len).flatten())
    } else {
        None
    }
}

/// The message of the error [slice] fails with
pub open spec fn out_of_bounds(e: RuntimeError) -> bool {
    e.spec_message() == "Character index out of bounds"@ && e.spec_operation() == "indexing string"@
}

/// Take `len` characters starting at character `i`
pub fn slice(s: &str, i: usize, len: usize) -> (r: Result<String, RuntimeError>)
    ensures
        match spec_slice(grapheme_clusters(s@), i as int, len as int) {
            Some(t) => r matches Ok(v) && v@ == t,
            None => r matches Err(e) && out_of_bounds(e),
        },
        i == 0 && len >= grapheme_clusters(s@).len() ==> (r matches Ok(v) && v@ == s@),
{
    let gs = graphemes(s);
    let n = gs.len();
    let ghost g = gs@.map_values(|x: &str| x@);
    if i == 0 {
        let k = if len <= n {
            len
        } else {
            n
        };
        let v = join_range(&gs, 0, k);
        assert(g.subrange(0, k as int) =~= g.take(k as int));
        assert(k == n ==> g.take(k as int) =~= g);
        return Ok(v);
    }
    if i - 1 >= n {
        return Err(RuntimeError::ext("Character index out of bounds".to_owned(), "indexing string"));
    }
    if len <= n - i {
        Ok(join_range(&gs, i, i + len))
    } else {
        RuntimeError::fail("Character index out of bounds".to_owned(), "indexing string")
    }
}

/// The first position at or after `i` where the items of `needle` follow
/// each other in `hay`.
pub open spec fn first_occurrence(hay: Seq<Seq<char>>, needle: Seq<Seq<char>>, i: int) -> Option<int>
    decreases hay.len() + 1 - i,
{
    if i < 0 || i + needle.len() > hay.len() {
        None
    } else if hay.subrange(i, i + needle.len()) == needle {
        Some(i)
    } else {
        first_occurrence(hay, needle, i + 1)
    }
}

/// Whether the clusters `h[i..i + needle.len()]` are those of `needle`.
fn matches_at(h: &Vec<&str>, n: &Vec<&str>, i: usize) -> (r: bool)
    requires
        i + n@.len() <= h@.len(),
    ensures
        r == (h@.map_values(|x: &str| x@).subrange(i as int, i + n@.len()) == n@.map_values(
            |x: &str| x@,
        )),
{
    let ghost hv = h@.map_values(|x: &str| x@);
    let ghost nv = n@.map_values(|x: &str| x@);
    let hn = h.len();
    let mut k: usize = 0;
    while k < n.len()
        invariant
            k <= n@.len(),
            hn == h@.len(),
            i + n@.len() <= h@.len(),
            hv == h@.map_values(|x: &str| x@),
            nv == n@.map_values(|x: &str| x@),
            forall|j: int| 0 <= j < k ==> hv[i + j] == nv[j],
        decreases n@.len() - k,
    {
        assert(i + k < h@.len());
        if !crate::text::str_eq(h[i + k], n[k]) {
            assert(hv.subrange(i as int, i + n@.len())[k as int] != nv[k as int]);
            return false;
        }
        k = k + 1;
    }
    assert(hv.subrange(i as int, i + n@.len()) =~= nv);
    true
}

/// Find the first character position where `needle` occurs in `haystack`
pub fn find(haystack: &str, needle: &str) -> (r: Option<usize>)
    ensures
        match first_occurrence(grapheme_clusters(haystack@), grapheme_clusters(needle@), 0) {
            Some(k) => r == Some(k as usize),
            None => r is None,
        },
{
    let h = graphemes(haystack);
    let n = graphemes(needle);
    let ghost hv = h@.map_values(|x: &str| x@);
    let ghost nv = n@.map_values(|x: &str| x@);
    assert(hv.len() == h@.len() && nv.len() == n@.len());
    if n.len() > h.len() {
        return None;
    }
    let last = h.len() - n.len();
    let mut i: usize = 0;
    loop
        invariant
            i <= last,
            last + n@.len() == h@.len(),
            hv == h@.map_values(|x: &str| x@),
            nv == n@.map_values(|x: &str| x@),
            hv.len() == h@.len(),
            nv.len() == n@.len(),
            hv == grapheme_clusters(haystack@),
            nv == grapheme_clusters(needle@),
            first_occurrence(h@.map_values(|x: &str| x@), n@.map_values(|x: &str| x@), 0)
                == first_occurrence(h@.map_values(|x: &str| x@), n@.map_values(|x: &str| x@), i as int),
        decreases last - i,
    {
        if matches_at(&h, &n, i) {
            return Some(i);
        }
        assert(first_occurrence(hv, nv, i as int) == first_occurrence(hv, nv, i + 1));
        if i == last {
            assert(first_occurrence(hv, nv, i + 1) is None);
            return None;
        }
        i = i + 1;
    }
}

} // verus!
