//! Decoding of the escape sequences in a string literal.

use vstd::prelude::*;

use vstd::string::StrSliceExecFns;

use crate::chars::{is_whitespace, spec_is_whitespace};
use crate::lex::{entry_views, lex_setup, lex_string, string_step, LexError, LexStep};
use crate::lexer::LexRes;
use crate::text::{byte_len, byte_offset, lemma_byte_len_encode, lemma_byte_len_prefix, str_chars, string_push};

verus! {

/// Reasons why [parse_string] might fail. See [StringError]
#[derive(Debug, Clone, Copy, PartialEq, Eq)]
pub enum StringErrorKind {
    /// A unicode escape sequence wasn't followed by 4 hex digits
    NotHex,
    /// A unicode escape sequence contained an unassigned code point
    BadCodePoint,
    /// An unrecognized escape sequence was found
    BadEscSeq,
}

/// Error produced by [parse_string]
#[derive(Debug, Clone, Copy, PartialEq, Eq)]
pub struct StringError {
    /// Byte offset of the character where the error occured
    pub pos: usize,
    /// Reason for the error
    pub kind: StringErrorKind,
}

/// The character a one-letter escape sequence `\code` stands for.
pub open spec fn simple_escape(code: char) -> Option<char> {
    if code == '\\' || code == '/' || code == '"' {
        Some(code)
    } else if code == 'b' {
        Some('\x08')
    } else if code == 'f' {
        Some('\x0f')
    } else if code == 'n' {
        Some('\n')
    } else if code == 'r' {
        Some('\r')
    } else if code == 't' {
        Some('\t')
    } else {
        None
    }
}

/// The value of a hexadecimal digit.
pub open spec fn hex_value(c: char) -> Option<nat> {
    let u = c as u32;
    if 0x30 <= u <= 0x39 {
        Some((u - 0x30) as nat)
    } else if 0x61 <= u <= 0x66 {
        Some((u - 0x61 + 10) as nat)
    } else if 0x41 <= u <= 0x46 {
        Some((u - 0x41 + 10) as nat)
    } else {
        None
    }
}

/// The byte offset of character `k` of `s`.
pub open spec fn pos_of(s: Seq<char>, k: int) -> usize {
    byte_len(s.take(k)) as usize
}

/// The first character at or after `j` that is not whitespace.
pub open spec fn first_non_ws(s: Seq<char>, j: int) -> Option<int>
    decreases s.len() - j,
{
    if j < 0 || j >= s.len() {
        None
    } else if !spec_is_whitespace(s[j]) {
        Some(j)
    } else {
        first_non_ws(s, j + 1)
    }
}

/// Where reading the hex digits `s[j..stop]` of a `\u` escape fails: the
/// position of the last character read when the text ends early, or that of
/// the first character that is not a hex digit.
pub open spec fn hex_error(s: Seq<char>, j: int, stop: int) -> Option<usize>
    decreases stop - j,
{
    if j >= stop {
        None
    } else if j >= s.len() {
        Some(pos_of(s, j - 1))
    } else if hex_value(s[j]) is None {
        Some(pos_of(s, j))
    } else {
        hex_error(s, j + 1, stop)
    }
}

/// The code point the four hex digits at `s[j..j + 4]` spell.
pub open spec fn hex4(s: Seq<char>, j: int) -> nat {
    4096 * hex_value(s[j])->0 + 256 * hex_value(s[j + 1])->0 + 16 * hex_value(s[j + 2])->0
        + hex_value(s[j + 3])->0
}

/// Whether a value below `0x10000` is a Unicode scalar value.
pub open spec fn is_scalar16(v: nat) -> bool {
    !(0xd800 <= v <= 0xdfff)
}

/// Decode `s[i..]` onto `target`. `None` where a backslash ends the text, an
/// input the string lexer never hands over.
pub open spec fn decode_from(s: Seq<char>, i: int, target: Seq<char>) -> Option<
    Result<Seq<char>, StringError>,
>
    decreases s.len() - i, 1int,
{
    if i < 0 || i >= s.len() {
        Some(Ok(target))
    } else if s[i] != '\\' {
        decode_from(s, i + 1, target.push(s[i]))
    } else if i + 1 >= s.len() {
        None
    } else {
        decode_escape(s, i, target)
    }
}

/// Decode the escape sequence whose backslash is `s[i]`, then the rest.
pub open spec fn decode_escape(s: Seq<char>, i: int, target: Seq<char>) -> Option<
    Result<Seq<char>, StringError>,
>
    decreases s.len() - i, 0int,
{
    if 0 <= i && i + 1 < s.len() {
        let code = s[i + 1];
        if simple_escape(code) is Some {
            decode_from(s, i + 2, target.push(simple_escape(code)->0))
        } else if code == '\n' {
            match first_non_ws(s, i + 2) {
                None => Some(Ok(target)),
                Some(j) => if i + 2 <= j < s.len() {
                    decode_from(s, j + 1, target.push(s[j]))
                } else {
                    Some(Ok(target))
                },
            }
        } else if code == 'u' {
            match hex_error(s, i + 2, i + 6) {
                Some(p) => Some(Err(StringError { pos: p, kind: StringErrorKind::NotHex })),
                None => if i + 6 > s.len() {
                    None
                } else if is_scalar16(hex4(s, i + 2)) {
                    decode_from(s, i + 6, target.push(hex4(s, i + 2) as char))
                } else {
                    Some(
                        Err(
                            StringError { pos: pos_of(s, i + 5), kind: StringErrorKind::BadCodePoint },
                        ),
                    )
                },
            }
        } else {
            Some(Err(StringError { pos: pos_of(s, i + 1), kind: StringErrorKind::BadEscSeq }))
        }
    } else {
        None
    }
}

/// What [parse_string] gives for the characters `s`.
pub open spec fn spec_parse_string(s: Seq<char>) -> Option<Result<Seq<char>, StringError>> {
    decode_from(s, 0, Seq::empty())
}

/// Calls std's `char::from_u32`, which returns the character with the given
/// code point if it is a Unicode scalar value.
#[verifier::external_body]
fn char_from_u32(i: u32) -> (r: Option<char>)
    ensures
        r is Some <==> (i <= 0x10ffff && !(0xd800 <= i <= 0xdfff)),
        r matches Some(c) ==> c as u32 == i,
{
    char::from_u32(i)
}

fn hex_digit(c: char) -> (r: Option<u32>)
    ensures
        match r {
            Some(v) => hex_value(c) == Some(v as nat) && v < 16,
            None => hex_value(c) is None,
        },
{
    let u = c as u32;
    if 0x30 <= u && u <= 0x39 {
        Some(u - 0x30)
    } else if 0x61 <= u && u <= 0x66 {
        Some(u - 0x61 + 10)
    } else if 0x41 <= u && u <= 0x46 {
        Some(u - 0x41 + 10)
    } else {
        None
    }
}

proof fn lemma_first_non_ws_bounds(s: Seq<char>, j: int)
    ensures
        first_non_ws(s, j) matches Some(k) ==> j <= k < s.len() && !spec_is_whitespace(s[k]),
    decreases s.len() - j,
{
    if 0 <= j < s.len() && spec_is_whitespace(s[j]) {
        lemma_first_non_ws_bounds(s, j + 1);
    }
}

/// Process escape sequences in a string literal; `None` where a backslash
/// ends the text, which the lexer never hands over.
pub fn try_parse_string(str: &str) -> (r: Option<Result<String, StringError>>)
    ensures
        match r {
            None => spec_parse_string(str@) is None,
            Some(Ok(t)) => spec_parse_string(str@) == Some(Ok::<Seq<char>, StringError>(t@)),
            Some(Err(e)) => spec_parse_string(str@) == Some(Err::<Seq<char>, StringError>(e)),
        },
{
    let s = str_chars(str);
    let bytes = str.as_bytes();
    let blen = bytes.len();
    proof {
        lemma_byte_len_encode(s@);
        assert(bytes@.len() == blen);
    }
    let n = s.len();
    let mut target = String::new();
    let mut i: usize = 0;
    while i < n
        invariant
            i <= n,
            n == s@.len(),
            s@ == str@,
            byte_len(s@) <= usize::MAX,
            decode_from(s@, i as int, target@) == spec_parse_string(str@),
        decreases n - i,
    {
        let c = s[i];
        if c != '\\' {
            string_push(&mut target, c);
            i = i + 1;
            continue;
        }
        if i + 1 >= n {
            return None;
        }
        let code = s[i + 1];
        assert(decode_from(s@, i as int, target@) == decode_escape(s@, i as int, target@));
        let simple: Option<char> = if code == '\\' || code == '/' || code == '"' {
            Some(code)
        } else if code == 'b' {
            Some('\x08')
        } else if code == 'f' {
            Some('\x0f')
        } else if code == 'n' {
            Some('\n')
        } else if code == 'r' {
            Some('\r')
        } else if code == 't' {
            Some('\t')
        } else {
            None
        };
        assert(simple == simple_escape(code));
        if let Some(e) = simple {
            string_push(&mut target, e);
            i = i + 2;
        } else if code == '\n' {
            let mut j = i + 2;
            proof {
                lemma_first_non_ws_bounds(s@, (i + 2) as int);
            }
            while j < n && is_whitespace(s[j])
                invariant
                    i + 2 <= j <= n,
                    n == s@.len(),
                    first_non_ws(s@, (i + 2) as int) == first_non_ws(s@, j as int),
                decreases n - j,
            {
                j = j + 1;
            }
            if j >= n {
                return Some(Ok(target));
            }
            string_push(&mut target, s[j]);
            i = j + 1;
        } else if code == 'u' {
            let mut acc: u32 = 0;
            let mut k: usize = 0;
            assert(simple_escape(code) is None);
            while k < 4
                invariant
                    k <= 4,
                    i + 1 < n,
                    n == s@.len(),
                    s@[i + 1] == 'u',
                    byte_len(s@) <= usize::MAX,
                    hex_error(s@, (i + 2) as int, (i + 6) as int) == hex_error(
                        s@,
                        (i + 2 + k) as int,
                        (i + 6) as int,
                    ),
                    i + 2 + k <= n,
                    decode_escape(s@, i as int, target@) == spec_parse_string(str@),
                    acc < power16(k as nat),
                    acc as nat == hex_prefix(s@, (i + 2) as int, k as nat),
                decreases 4 - k,
            {
                let j = i + 2 + k;
                if j >= n {
                    proof {
                        lemma_byte_len_prefix(s@, j - 1);
                    }
                    let pos = byte_offset(&s, j - 1);
                    return Some(Err(StringError { pos, kind: StringErrorKind::NotHex }));
                }
                match hex_digit(s[j]) {
                    None => {
                        proof {
                            lemma_byte_len_prefix(s@, j as int);
                        }
                        let pos = byte_offset(&s, j);
                        return Some(Err(StringError { pos, kind: StringErrorKind::NotHex }));
                    },
                    Some(v) => {
                        proof {
                            lemma_power16_bound(k as nat);
                            lemma_hex_prefix_step(s@, (i + 2) as int, k as nat);
                            assert(acc * 16 + v < power16((k + 1) as nat)) by (nonlinear_arith)
                                requires
                                    acc < power16(k as nat),
                                    v < 16,
                                    power16((k + 1) as nat) == 16 * power16(k as nat),
                            ;
                        }
                        acc = acc * 16 + v;
                    },
                }
                k = k + 1;
            }
            proof {
                lemma_hex4(s@, (i + 2) as int);
                lemma_power16_bound(3);
            }
            match char_from_u32(acc) {
                None => {
                    proof {
                        lemma_byte_len_prefix(s@, i + 5);
                    }
                    let pos = byte_offset(&s, i + 5);
                    return Some(Err(StringError { pos, kind: StringErrorKind::BadCodePoint }));
                },
                Some(ch) => {
                    proof {
                        vstd::utf8::char_u32_cast(ch, acc);
                    }
                    string_push(&mut target, ch);
                    i = i + 6;
                },
            }
        } else {
            proof {
                lemma_byte_len_prefix(s@, i + 1);
            }
            let pos = byte_offset(&s, i + 1);
            return Some(Err(StringError { pos, kind: StringErrorKind::BadEscSeq }));
        }
    }
    Some(Ok(target))
}

/// Process escape sequences in a string literal
pub fn parse_string(str: &str) -> (r: Result<String, StringError>)
    requires
        spec_parse_string(str@) is Some,
    ensures
        match r {
            Ok(t) => spec_parse_string(str@) == Some(Ok::<Seq<char>, StringError>(t@)),
            Err(e) => spec_parse_string(str@) == Some(Err::<Seq<char>, StringError>(e)),
        },
{
    try_parse_string(str).unwrap()
}


proof fn lemma_pos_of_lt(s: Seq<char>, k: int)
    requires
        0 <= k < s.len(),
    ensures
        pos_of(s, k) < byte_len(s),
        byte_len(s.take(k)) < byte_len(s),
{
    crate::text::lemma_byte_len_step(s, k);
    lemma_byte_len_prefix(s, k + 1);
}

/// Every error [parse_string] reports points at a character of the input.
pub proof fn lemma_decode_err_pos(s: Seq<char>, i: int, target: Seq<char>)
    requires
        byte_len(s) <= usize::MAX,
    ensures
        decode_from(s, i, target) matches Some(Err(e)) ==> (e.pos as int) < byte_len(s),
    decreases s.len() - i, 1int,
{
    if i < 0 || i >= s.len() {
    } else if s[i] != '\\' {
        lemma_decode_err_pos(s, i + 1, target.push(s[i]));
    } else if i + 1 >= s.len() {
    } else {
        lemma_escape_err_pos(s, i, target);
    }
}

proof fn lemma_hex_error_pos(s: Seq<char>, j: int, stop: int)
    requires
        1 <= j,
        byte_len(s) <= usize::MAX,
        j - 1 < s.len(),
    ensures
        hex_error(s, j, stop) matches Some(p) ==> (p as int) < byte_len(s),
    decreases stop - j,
{
    if j >= stop {
    } else if j >= s.len() {
        lemma_pos_of_lt(s, j - 1);
    } else if hex_value(s[j]) is None {
        lemma_pos_of_lt(s, j);
    } else {
        lemma_hex_error_pos(s, j + 1, stop);
    }
}

proof fn lemma_escape_err_pos(s: Seq<char>, i: int, target: Seq<char>)
    requires
        byte_len(s) <= usize::MAX,
    ensures
        decode_escape(s, i, target) matches Some(Err(e)) ==> (e.pos as int) < byte_len(s),
    decreases s.len() - i, 0int,
{
    if 0 <= i && i + 1 < s.len() {
        let code = s[i + 1];
        if simple_escape(code) is Some {
            lemma_decode_err_pos(s, i + 2, target.push(simple_escape(code)->0));
        } else if code == '\n' {
            match first_non_ws(s, i + 2) {
                None => {},
                Some(j) => if i + 2 <= j < s.len() {
                    lemma_decode_err_pos(s, j + 1, target.push(s[j]));
                },
            }
        } else if code == 'u' {
            lemma_hex_error_pos(s, i + 2, i + 6);
            match hex_error(s, i + 2, i + 6) {
                Some(p) => {},
                None => if i + 6 > s.len() {
                } else if is_scalar16(hex4(s, i + 2)) {
                    lemma_decode_err_pos(s, i + 6, target.push(hex4(s, i + 2) as char));
                } else {
                    lemma_pos_of_lt(s, i + 5);
                },
            }
        } else {
            lemma_pos_of_lt(s, i + 1);
        }
    }
}

/// `16 ^ k`.
pub open spec fn power16(k: nat) -> nat
    decreases k,
{
    if k == 0 {
        1
    } else {
        16 * power16((k - 1) as nat)
    }
}

/// The value of the first `k` hex digits at `s[j..]`.
pub open spec fn hex_prefix(s: Seq<char>, j: int, k: nat) -> nat
    decreases k,
{
    if k == 0 {
        0
    } else {
        16 * hex_prefix(s, j, (k - 1) as nat) + hex_value(s[j + k - 1])->0
    }
}

proof fn lemma_hex_prefix_step(s: Seq<char>, j: int, k: nat)
    ensures
        hex_prefix(s, j, k + 1) == 16 * hex_prefix(s, j, k) + hex_value(s[j + k])->0,
        power16(k + 1) == 16 * power16(k),
{
}

proof fn lemma_power16_bound(k: nat)
    requires
        k <= 3,
    ensures
        power16(k) <= 4096,
        power16(k + 1) <= 65536,
{
    reveal_with_fuel(power16, 5);
}

proof fn lemma_hex4(s: Seq<char>, j: int)
    ensures
        hex_prefix(s, j, 4) == hex4(s, j),
{
    reveal_with_fuel(hex_prefix, 5);
}

proof fn lemma_plain_from(s: Seq<char>, i: int)
    requires
        0 <= i <= s.len(),
        forall|k: int| 0 <= k < s.len() ==> s[k] != '\\',
    ensures
        decode_from(s, i, s.take(i)) == Some(Ok::<Seq<char>, StringError>(s)),
    decreases s.len() - i,
{
    if i < s.len() {
        assert(s.take(i).push(s[i]) =~= s.take(i + 1));
        lemma_plain_from(s, i + 1);
    } else {
        assert(s.take(i) =~= s);
    }
}

/// A string literal without escape sequences stands for its own text.
pub proof fn law_plain_string(s: Seq<char>)
    requires
        forall|k: int| 0 <= k < s.len() ==> s[k] != '\\',
    ensures
        spec_parse_string(s) == Some(Ok::<Seq<char>, StringError>(s)),
{
    assert(s.take(0) =~= Seq::<char>::empty());
    lemma_plain_from(s, 0);
}

proof fn lemma_plain_span(s: Seq<char>, i: int, k: int, target: Seq<char>)
    requires
        0 <= i <= k <= s.len(),
        forall|j: int| i <= j < k ==> s[j] != '\\',
    ensures
        decode_from(s, i, target) == decode_from(s, k, target + s.subrange(i, k)),
    decreases k - i,
{
    if i < k {
        lemma_plain_span(s, i + 1, k, target.push(s[i]));
        assert(target.push(s[i]) + s.subrange(i + 1, k) =~= target + s.subrange(i, k));
    } else {
        assert(target + s.subrange(i, k) =~= target);
    }
}

proof fn lemma_escape_between(t: Seq<char>, u: Seq<char>, code: char, out: char)
    requires
        forall|k: int| 0 <= k < t.len() ==> t[k] != '\\',
        forall|k: int| 0 <= k < u.len() ==> u[k] != '\\',
        simple_escape(code) == Some(out),
    ensures
        spec_parse_string(t + seq!['\\', code] + u) == Some(
            Ok::<Seq<char>, StringError>(t + seq![out] + u),
        ),
{
    let s = t + seq!['\\', code] + u;
    let n = t.len() as int;
    assert forall|j: int| 0 <= j < n implies s[j] != '\\' by {
        assert(s[j] == t[j]);
    }
    lemma_plain_span(s, 0, n, Seq::empty());
    assert(Seq::<char>::empty() + s.subrange(0, n) =~= t);
    assert(s[n] == '\\' && s[n + 1] == code);
    assert forall|j: int| n + 2 <= j < s.len() implies s[j] != '\\' by {
        assert(s[j] == u[j - n - 2]);
    }
    lemma_plain_span(s, n + 2, s.len() as int, t.push(out));
    assert(t.push(out) + s.subrange(n + 2, s.len() as int) =~= t + seq![out] + u);
    assert(decode_escape(s, n, t) == decode_from(s, n + 2, t.push(out)));
    assert(decode_from(s, n, t) == decode_escape(s, n, t));
    assert(decode_from(s, s.len() as int, t + seq![out] + u) == Some(
        Ok::<Seq<char>, StringError>(t + seq![out] + u),
    ));
}

/// Each one-letter escape sequence decodes to its own character, whatever
/// text without backslashes stands around it: `\n` to a line feed (U+000A),
/// `\r` to a carriage return (U+000D), `\t` to a tab (U+0009), `\b` to a
/// backspace (U+0008), `\f` to U+000F, and `\\`, `\"` and `\/` to the
/// character after the backslash.
pub proof fn law_one_letter_escapes(t: Seq<char>, u: Seq<char>)
    requires
        forall|k: int| 0 <= k < t.len() ==> t[k] != '\\',
        forall|k: int| 0 <= k < u.len() ==> u[k] != '\\',
    ensures
        spec_parse_string(t + seq!['\\', 'n'] + u) == Some(
            Ok::<Seq<char>, StringError>(t + seq!['\u{000A}'] + u),
        ),
        spec_parse_string(t + seq!['\\', 'r'] + u) == Some(
            Ok::<Seq<char>, StringError>(t + seq!['\u{000D}'] + u),
        ),
        spec_parse_string(t + seq!['\\', 't'] + u) == Some(
            Ok::<Seq<char>, StringError>(t + seq!['\u{0009}'] + u),
        ),
        spec_parse_string(t + seq!['\\', 'b'] + u) == Some(
            Ok::<Seq<char>, StringError>(t + seq!['\u{0008}'] + u),
        ),
        spec_parse_string(t + seq!['\\', 'f'] + u) == Some(
            Ok::<Seq<char>, StringError>(t + seq!['\u{000F}'] + u),
        ),
        spec_parse_string(t + seq!['\\', '\\'] + u) == Some(
            Ok::<Seq<char>, StringError>(t + seq!['\\'] + u),
        ),
        spec_parse_string(t + seq!['\\', '"'] + u) == Some(
            Ok::<Seq<char>, StringError>(t + seq!['"'] + u),
        ),
        spec_parse_string(t + seq!['\\', '/'] + u) == Some(
            Ok::<Seq<char>, StringError>(t + seq!['/'] + u),
        ),
{
    lemma_escape_between(t, u, 'n', '\u{000A}');
    lemma_escape_between(t, u, 'r', '\u{000D}');
    lemma_escape_between(t, u, 't', '\u{0009}');
    lemma_escape_between(t, u, 'b', '\u{0008}');
    lemma_escape_between(t, u, 'f', '\u{000F}');
    lemma_escape_between(t, u, '\\', '\\');
    lemma_escape_between(t, u, '"', '"');
    lemma_escape_between(t, u, '/', '/');
}

/// The hex digits of a `\\u` escape: `0` to `9` are worth zero to nine, `a`
/// to `f` and `A` to `F` ten to fifteen.
pub proof fn law_hex_digits(k: u32)
    requires
        k < 16,
    ensures
        k < 10 ==> hex_value((0x30 + k) as char) == Some(k as nat),
        k >= 10 ==> hex_value((0x61 + k - 10) as char) == Some(k as nat),
        k >= 10 ==> hex_value((0x41 + k - 10) as char) == Some(k as nat),
{
}

/// The four hex digits `h` of a `\\u` escape read as a number, most
/// significant first.
pub open spec fn hex_number(h: Seq<char>) -> nat {
    ((hex_value(h[0])->0 * 16 + hex_value(h[1])->0) * 16 + hex_value(h[2])->0) * 16 + hex_value(
        h[3],
    )->0
}

/// A `\\u` escape with four hex digits decodes to the character of the code
/// point they spell, whatever text without backslashes stands around it;
/// where that code point is a surrogate the decoding fails there.
pub proof fn law_unicode_escape(t: Seq<char>, h: Seq<char>, u: Seq<char>)
    requires
        forall|k: int| 0 <= k < t.len() ==> t[k] != '\\',
        forall|k: int| 0 <= k < u.len() ==> u[k] != '\\',
        h.len() == 4,
        forall|k: int| 0 <= k < 4 ==> hex_value(#[trigger] h[k]) is Some,
    ensures
        !(0xd800 <= hex_number(h) <= 0xdfff) ==> spec_parse_string(t + seq!['\\', 'u'] + h + u)
            == Some(Ok::<Seq<char>, StringError>(t + seq![hex_number(h) as char] + u)),
        0xd800 <= hex_number(h) <= 0xdfff ==> (spec_parse_string(t + seq!['\\', 'u'] + h + u) matches Some(
            Err(e),
        ) && e.kind == StringErrorKind::BadCodePoint),
{
    let s = t + seq!['\\', 'u'] + h + u;
    let n = t.len() as int;
    assert forall|j: int| 0 <= j < n implies s[j] != '\\' by {
        assert(s[j] == t[j]);
    }
    lemma_plain_span(s, 0, n, Seq::empty());
    assert(Seq::<char>::empty() + s.subrange(0, n) =~= t);
    assert(s[n] == '\\' && s[n + 1] == 'u');
    assert(simple_escape('u') is None);
    assert forall|k: int| 0 <= k < 4 implies s[n + 2 + k] == h[k] by {}
    assert(hex_value(s[n + 2]) is Some && hex_value(s[n + 3]) is Some && hex_value(s[n + 4]) is Some
        && hex_value(s[n + 5]) is Some) by {
        assert(hex_value(h[0]) is Some);
        assert(hex_value(h[1]) is Some);
        assert(hex_value(h[2]) is Some);
        assert(hex_value(h[3]) is Some);
    }
    assert(hex_error(s, n + 2, n + 6) is None) by {
        reveal_with_fuel(hex_error, 5);
    }
    assert(hex4(s, n + 2) == hex_number(h));
    assert(decode_from(s, n, t) == decode_escape(s, n, t));
    if !(0xd800 <= hex_number(h) <= 0xdfff) {
        let out = hex_number(h) as char;
        assert(decode_escape(s, n, t) == decode_from(s, n + 6, t.push(out)));
        assert forall|j: int| n + 6 <= j < s.len() implies s[j] != '\\' by {
            assert(s[j] == u[j - n - 6]);
        }
        lemma_plain_span(s, n + 6, s.len() as int, t.push(out));
        assert(t.push(out) + s.subrange(n + 6, s.len() as int) =~= t + seq![out] + u);
        assert(decode_from(s, s.len() as int, t + seq![out] + u) == Some(
            Ok::<Seq<char>, StringError>(t + seq![out] + u),
        ));
    }
}

/// The built-in lexer for a plain string literal.
pub struct StringLexer;

impl StringLexer {
    /// Lex the string literal at the start of `tail`, if it starts with one.
    pub fn lex<'a>(&self, tail: &'a str) -> (r: Option<Result<LexRes<'a>, LexError>>)
        requires
            tail@.len() > 0 && tail@[0] == '"' ==> !(string_step(tail@, 0) is Stuck),
        ensures
            !(tail@.len() > 0 && tail@[0] == '"') ==> r is None,
            tail@.len() > 0 && tail@[0] == '"' ==> match string_step(tail@, 0) {
                LexStep::Fail(e) => r matches Some(Err(e2)) && e2 == e,
                LexStep::Token(t, k) => r matches Some(Ok(res)) && entry_views(res.tokens@) == seq![t]
                    && res.tail@ == tail@.skip(k),
                _ => false,
            },
    {
        let (s, offs) = lex_setup(tail);
        if !(s.len() > 0 && s[0] == '"') {
            return None;
        }
        match lex_string(tail, &s, &offs, 0) {
            crate::lex::ExecStep::Token(t, k) => {
                let rest = tail.substring_char(k, s.len());
                assert(rest@ =~= tail@.skip(k as int));
                let tokens = vec![t];
                assert(entry_views(tokens@) =~= seq![t@]);
                Some(Ok(LexRes { tail: rest, tokens }))
            },
            crate::lex::ExecStep::Fail(e) => Some(Err(e)),
            crate::lex::ExecStep::Skip | crate::lex::ExecStep::Stuck => None,
        }
    }
}

} // verus!
