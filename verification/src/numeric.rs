//! Parse a float or integer. These functions are also used for the macro
//! priority numbers.
//!
//! Literals are decoded over the UTF-8 bytes of the source text. A literal
//! that stands for an unsigned integer is decoded exactly; one that needs a
//! floating point value is returned as the exact integer components that
//! describe it, which the embedder evaluates in floating point.

use std::ops::Range;
use vstd::utf8::encode_utf8;
use vstd::prelude::*;

use vstd::string::StrSliceExecFns;

use crate::chars::{is_alphanumeric, spec_is_alphanumeric, in_range};
use crate::lex::{entry_views, lex_number, lex_setup, number_step, ExecStep, LexError, LexStep};
use crate::lexer::LexRes;

verus! {

/// The ways a run of digits can fail to decode, as `usize::from_str_radix`
/// reports them.
#[derive(Debug, Clone, Copy, PartialEq, Eq)]
pub enum IntErrorKind {
    /// There were no digits at all
    Empty,
    /// A byte that isn't a digit in the radix, or a lone sign
    InvalidDigit,
    /// The value exceeds `usize::MAX`
    PosOverflow,
}

/// Reasons why [parse_num] might fail. See [NumError].
#[derive(Debug, Clone, Copy, PartialEq, Eq)]
pub enum NumErrorKind {
    /// The literal describes a float that is NaN
    NaN,
    /// Some integer appearing in the literal overflows `usize`
    Overflow,
    /// A character that isn't a digit in the given base was found
    InvalidDigit,
}

impl NumErrorKind {
    /// The error kind a failed digit run is reported as.
    pub open spec fn spec_from_int(kind: IntErrorKind) -> NumErrorKind {
        match kind {
            IntErrorKind::InvalidDigit => NumErrorKind::InvalidDigit,
            _ => NumErrorKind::Overflow,
        }
    }

    /// The error for a failed digit run. An empty run never reaches this:
    /// the number syntax rules it out before the digits are read.
    pub fn from_int(kind: &IntErrorKind) -> (r: Self)
        requires
            !(*kind is Empty),
        ensures
            r == Self::spec_from_int(*kind),
    {
        match kind {
            IntErrorKind::InvalidDigit => NumErrorKind::InvalidDigit,
            IntErrorKind::PosOverflow => NumErrorKind::Overflow,
            IntErrorKind::Empty => NumErrorKind::Overflow,
        }
    }
}

/// Error produced by [parse_num]
#[derive(Debug, PartialEq, Eq)]
pub struct NumError {
    /// Location, in bytes from the start of the literal
    pub range: Range<usize>,
    /// Reason
    pub kind: NumErrorKind,
}

/// A number literal whose value is not an unsigned integer, given by the exact
/// integers that describe it.
#[derive(Debug, Clone, Copy, PartialEq, Eq, Structural)]
pub enum FloatLiteral {
    /// `mantissa * radix ^ exponent`, written without a point
    Scaled { mantissa: usize, radix: u8, exponent: i32 },
    /// `(whole + frac / radix ^ frac_len) * radix ^ exponent`, written with a
    /// point. `frac_len` counts the characters after the point, separators
    /// included.
    Dotted { whole: usize, frac: usize, frac_len: usize, radix: u8, exponent: i32 },
}

/// A decoded number literal.
#[derive(Debug, Clone, Copy, PartialEq, Eq, Structural)]
pub enum Numeric {
    /// A nonnegative integer such as a size, index or count
    Uint(usize),
    /// A number that is evaluated in floating point
    Float(FloatLiteral),
}

/// `b` to the power of `e` over the naturals.
pub open spec fn power(b: nat, e: nat) -> nat
    decreases e,
{
    if e == 0 {
        1
    } else {
        b * power(b, (e - 1) as nat)
    }
}

proof fn lemma_power_mono(b: nat, e1: nat, e2: nat)
    requires
        b >= 1,
        e1 <= e2,
    ensures
        power(b, e1) <= power(b, e2),
    decreases e2,
{
    if e1 < e2 {
        lemma_power_mono(b, e1, (e2 - 1) as nat);
        assert(power(b, e2) == b * power(b, (e2 - 1) as nat));
        assert(b * power(b, (e2 - 1) as nat) >= power(b, (e2 - 1) as nat)) by (nonlinear_arith)
            requires
                b >= 1,
        ;
    }
}

/// The value of an ASCII digit or letter, as `char::to_digit` reads it, or 36
/// for any other byte.
pub open spec fn digit_value(b: u8) -> nat {
    if 0x30 <= b <= 0x39 {
        (b - 0x30) as nat
    } else if 0x61 <= b <= 0x7a {
        (b - 0x61 + 10) as nat
    } else if 0x41 <= b <= 0x5a {
        (b - 0x41 + 10) as nat
    } else {
        36
    }
}

/// Read digits left to right onto `acc`, stopping at the first byte that is
/// not a digit in `radix` or at the first digit that overflows `usize`.
pub open spec fn fold_digits(s: Seq<u8>, radix: nat, acc: nat) -> Result<nat, IntErrorKind>
    decreases s.len(),
{
    if s.len() == 0 {
        Ok(acc)
    } else if digit_value(s[0]) >= radix {
        Err(IntErrorKind::InvalidDigit)
    } else if acc * radix + digit_value(s[0]) > usize::MAX {
        Err(IntErrorKind::PosOverflow)
    } else {
        fold_digits(s.drop_first(), radix, acc * radix + digit_value(s[0]))
    }
}

proof fn lemma_fold_never_empty(s: Seq<u8>, radix: nat, acc: nat)
    ensures
        !(fold_digits(s, radix, acc) matches Err(IntErrorKind::Empty)),
    decreases s.len(),
{
    if s.len() > 0 && digit_value(s[0]) < radix && acc * radix + digit_value(s[0]) <= usize::MAX {
        lemma_fold_never_empty(s.drop_first(), radix, acc * radix + digit_value(s[0]));
    }
}

/// `usize::from_str_radix` on the bytes `s`: an optional `+` followed by at
/// least one digit.
pub open spec fn spec_from_str_radix(s: Seq<u8>, radix: nat) -> Result<usize, IntErrorKind> {
    if s.len() == 0 {
        Err(IntErrorKind::Empty)
    } else if s.len() == 1 && (s[0] == 0x2b || s[0] == 0x2d) {
        Err(IntErrorKind::InvalidDigit)
    } else {
        let digits = if s[0] == 0x2b {
            s.drop_first()
        } else {
            s
        };
        match fold_digits(digits, radix, 0) {
            Ok(v) => Ok(v as usize),
            Err(e) => Err(e),
        }
    }
}

/// The bytes of `s` with every `_` separator removed.
pub open spec fn strip_underscores(s: Seq<u8>) -> Seq<u8>
    decreases s.len(),
{
    if s.len() == 0 {
        seq![]
    } else if s.last() == 0x5f {
        strip_underscores(s.drop_last())
    } else {
        strip_underscores(s.drop_last()).push(s.last())
    }
}

proof fn lemma_strip_len(s: Seq<u8>)
    ensures
        strip_underscores(s).len() <= s.len(),
    decreases s.len(),
{
    if s.len() > 0 {
        lemma_strip_len(s.drop_last());
    }
}

/// What [int_parse] gives for the digit run `seg` that begins at byte `start`
/// of the literal.
pub open spec fn spec_int_parse(seg: Seq<u8>, radix: nat, start: int) -> Result<usize, NumError> {
    let digits = strip_underscores(seg);
    match spec_from_str_radix(digits, radix) {
        Ok(v) => Ok(v),
        Err(k) => Err(
            NumError {
                range: Range { start: start as usize, end: (start + digits.len()) as usize },
                kind: NumErrorKind::spec_from_int(k),
            },
        ),
    }
}

/// A digit run can be decoded unless it holds no digit at all once its
/// separators are removed.
pub open spec fn int_parse_defined(seg: Seq<u8>) -> bool {
    strip_underscores(seg).len() > 0
}

fn from_str_radix(s: &Vec<u8>, radix: u8) -> (r: Result<usize, IntErrorKind>)
    requires
        2 <= radix <= 36,
    ensures
        r == spec_from_str_radix(s@, radix as nat),
{
    let n = s.len();
    if n == 0 {
        return Err(IntErrorKind::Empty);
    }
    if n == 1 && (s[0] == 0x2b || s[0] == 0x2d) {
        return Err(IntErrorKind::InvalidDigit);
    }
    let mut i: usize = if s[0] == 0x2b {
        1
    } else {
        0
    };
    let ghost digits = if s@[0] == 0x2b {
        s@.drop_first()
    } else {
        s@
    };
    assert(s@.subrange(i as int, n as int) =~= digits);
    let mut acc: usize = 0;
    while i < n
        invariant
            i <= n,
            n == s@.len(),
            n > 0,
            !(n == 1 && (s@[0] == 0x2b || s@[0] == 0x2d)),
            digits == if s@[0] == 0x2b {
                s@.drop_first()
            } else {
                s@
            },
            2 <= radix <= 36,
            fold_digits(s@.subrange(i as int, n as int), radix as nat, acc as nat) == fold_digits(
                digits,
                radix as nat,
                0,
            ),
        decreases n - i,
    {
        let b = s[i];
        let d: u8 = if 0x30 <= b && b <= 0x39 {
            b - 0x30
        } else if 0x61 <= b && b <= 0x7a {
            b - 0x61 + 10
        } else if 0x41 <= b && b <= 0x5a {
            b - 0x41 + 10
        } else {
            36
        };
        assert(d as nat == digit_value(b));
        let ghost rest = s@.subrange(i as int, n as int);
        assert(rest[0] == b);
        if d >= radix {
            return Err(IntErrorKind::InvalidDigit);
        }
        let next = match acc.checked_mul(radix as usize) {
            None => {
                assert(acc * radix + d > usize::MAX) by (nonlinear_arith)
                    requires
                        acc * radix > usize::MAX,
                        d >= 0,
                ;
                return Err(IntErrorKind::PosOverflow);
            },
            Some(m) => match m.checked_add(d as usize) {
                None => {
                    return Err(IntErrorKind::PosOverflow);
                },
                Some(v) => v,
            },
        };
        assert(rest.drop_first() =~= s@.subrange(i + 1, n as int));
        acc = next;
        i = i + 1;
    }
    assert(s@.subrange(i as int, n as int).len() == 0);
    Ok(acc)
}

/// Decode the digit run `bytes[lo..hi]`, which begins at byte `start` of the
/// literal, after removing its `_` separators.
fn int_parse(bytes: &[u8], lo: usize, hi: usize, radix: u8, start: usize) -> (r: Result<
    usize,
    NumError,
>)
    requires
        lo <= hi <= bytes@.len(),
        start <= lo,
        radix == 2 || radix == 8 || radix == 10 || radix == 16,
        int_parse_defined(bytes@.subrange(lo as int, hi as int)),
    ensures
        r == spec_int_parse(bytes@.subrange(lo as int, hi as int), radix as nat, start as int),
{
    let ghost seg = bytes@.subrange(lo as int, hi as int);
    let mut digits: Vec<u8> = Vec::new();
    let mut i = lo;
    assert(seg.subrange(0, 0) =~= Seq::<u8>::empty());
    while i < hi
        invariant
            lo <= i <= hi,
            hi <= bytes@.len(),
            seg == bytes@.subrange(lo as int, hi as int),
            digits@ == strip_underscores(seg.subrange(0, i - lo)),
        decreases hi - i,
    {
        let b = bytes[i];
        let ghost pre = seg.subrange(0, i - lo);
        assert(seg.subrange(0, i + 1 - lo).drop_last() =~= pre);
        assert(seg.subrange(0, i + 1 - lo).last() == b);
        if b != 0x5f {
            digits.push(b);
        }
        i = i + 1;
    }
    assert(seg.subrange(0, hi - lo) =~= seg);
    proof {
        lemma_strip_len(seg);
    }
    proof {
        lemma_fold_never_empty(
            if digits@[0] == 0x2b {
                digits@.drop_first()
            } else {
                digits@
            },
            radix as nat,
            0,
        );
    }
    match from_str_radix(&digits, radix) {
        Ok(v) => Ok(v),
        Err(k) => {
            let kind = NumErrorKind::from_int(&k);
            Err(NumError { range: Range { start, end: start + digits.len() }, kind })
        },
    }
}

/// The radix a literal's prefix selects, and where its digits begin.
pub open spec fn prefix_of(b: Seq<u8>) -> (u8, int) {
    if b.len() >= 2 && b[0] == 0x30 && b[1] == 0x78 {
        (16u8, 2)
    } else if b.len() >= 2 && b[0] == 0x30 && b[1] == 0x62 {
        (2u8, 2)
    } else if b.len() >= 2 && b[0] == 0x30 && b[1] == 0x6f {
        (8u8, 2)
    } else {
        (10u8, 0)
    }
}

/// The index of the first byte `x` in `b[lo..hi]`, if any.
pub open spec fn find_byte(b: Seq<u8>, lo: int, hi: int, x: u8) -> Option<int>
    decreases hi - lo,
{
    if lo >= hi {
        None
    } else if b[lo] == x {
        Some(lo)
    } else {
        find_byte(b, lo + 1, hi, x)
    }
}

/// The signed exponent written after `p`: the decoded magnitude truncated to
/// `i32`, negated when a `-` precedes it.
pub open spec fn signed_exponent(neg: bool, magnitude: usize) -> int {
    if neg {
        -((magnitude as i32) as int)
    } else {
        (magnitude as i32) as int
    }
}

/// The smallest exponent at which a power of the radix no longer fits in a
/// finite `f64`, which ends below `2^1024`.
pub open spec fn f64_overflow_exponent(radix: u8) -> int {
    if radix == 2 {
        1024
    } else if radix == 8 {
        342
    } else if radix == 10 {
        309
    } else {
        256
    }
}

proof fn lemma_power_add(b: nat, m: nat, n: nat)
    ensures
        power(b, m + n) == power(b, m) * power(b, n),
    decreases n,
{
    if n > 0 {
        let k = (n - 1) as nat;
        lemma_power_add(b, m, k);
        let x = power(b, m);
        let y = power(b, k);
        assert(m + n == (m + k) + 1);
        assert(power(b, m + n) == b * power(b, m + k));
        assert(power(b, m + k) == x * y);
        assert(power(b, n) == b * y);
        assert(b * (x * y) == x * (b * y)) by (nonlinear_arith);
        assert(power(b, m + n) == power(b, m) * power(b, n));
    } else {
        assert(power(b, n) == 1);
        assert(m + n == m);
        assert(power(b, m) * 1 == power(b, m));
    }
}

proof fn lemma_power_pow(b: nat, m: nat, n: nat)
    ensures
        power(b, m * n) == power(power(b, m), n),
    decreases n,
{
    if n > 0 {
        let k = (n - 1) as nat;
        lemma_power_pow(b, m, k);
        let mk = m * k;
        assert(m * n == mk + m) by (nonlinear_arith)
            requires
                n == k + 1,
                mk == m * k,
        ;
        lemma_power_add(b, mk, m);
        let x = power(b, m);
        let y = power(x, k);
        assert(power(b, mk) == y);
        assert(power(b, m * n) == y * x);
        assert(power(x, n) == x * y);
        assert(y * x == x * y) by (nonlinear_arith);
        assert(power(b, m * n) == power(power(b, m), n));
    } else {
        assert(m * n == 0) by (nonlinear_arith)
            requires
                n == 0,
        ;
        assert(power(b, 0) == 1);
        assert(power(power(b, m), n) == 1);
    }
}

proof fn lemma_power_base_mono(a: nat, c: nat, n: nat)
    requires
        a <= c,
    ensures
        power(a, n) <= power(c, n),
        a < c && n > 0 ==> power(a, n) < power(c, n),
    decreases n,
{
    if n > 0 {
        lemma_power_base_mono(a, c, (n - 1) as nat);
        let x = power(a, (n - 1) as nat);
        let y = power(c, (n - 1) as nat);
        assert(a * x <= c * y) by (nonlinear_arith)
            requires
                a <= c,
                x <= y,
        ;
        if a < c {
            lemma_power_mono(c, 0, (n - 1) as nat);
            assert(power(c, 0) == 1);
            assert(a * x < c * y) by (nonlinear_arith)
                requires
                    x <= y,
                    1 <= y,
                    a < c,
            ;
        }
    }
}

proof fn lemma_two_powers()
    ensures
        power(2, 1023) < power(2, 1024),
        power(2, 1024) == power(2, 1023) * 2,
        power(8, 341) < power(2, 1024) && power(2, 1024) <= power(8, 342),
        power(16, 255) < power(2, 1024) && power(2, 1024) <= power(16, 256),
{
    reveal_with_fuel(power, 5);
    lemma_power_mono(2, 0, 1020);
    lemma_power_add(2, 1020, 4);
    lemma_power_add(2, 1023, 1);
    lemma_power_add(2, 1024, 2);
    lemma_power_pow(2, 3, 341);
    lemma_power_pow(2, 3, 342);
    lemma_power_pow(2, 4, 255);
    lemma_power_pow(2, 4, 256);
}

proof fn lemma_ten_constants()
    ensures
        power(10, 77) < power(2, 256),
        power(10, 28) >= power(2, 93),
{
    assert(power(10, 7) == 10000000) by {
        reveal_with_fuel(power, 8);
    }
    assert(power(2, 16) == 65536) by {
        reveal_with_fuel(power, 17);
    }
    assert(power(2, 31) == 2147483648) by {
        reveal_with_fuel(power, 32);
    }
    lemma_power_pow(10, 7, 11);
    lemma_power_pow(10, 7, 4);
    lemma_power_pow(2, 16, 16);
    lemma_power_pow(2, 31, 3);
    assert(power(10000000, 11) < power(65536, 16)) by {
        reveal_with_fuel(power, 17);
    }
    assert(power(10000000, 4) >= power(2147483648, 3)) by {
        reveal_with_fuel(power, 5);
    }
}

proof fn lemma_ten_powers()
    ensures
        power(10, 308) < power(2, 1024),
        power(2, 1024) <= power(10, 309),
{
    lemma_two_powers();
    lemma_ten_constants();
    lemma_power_pow(10, 77, 4);
    lemma_power_pow(2, 256, 4);
    lemma_power_base_mono(power(10, 77), power(2, 256), 4);
    lemma_power_pow(10, 28, 11);
    lemma_power_pow(2, 93, 11);
    lemma_power_base_mono(power(2, 93), power(10, 28), 11);
    lemma_power_add(10, 308, 1);
    reveal_with_fuel(power, 2);
    assert(power(10, 309) >= power(2, 1024)) by (nonlinear_arith)
        requires
            power(10, 308) >= power(2, 1023),
            power(10, 309) == power(10, 308) * 10,
            power(2, 1024) == power(2, 1023) * 2,
    ;
}

/// A power of the radix reaches `2^1024` exactly from
/// [f64_overflow_exponent] on.
proof fn lemma_f64_overflow(radix: u8, e: nat)
    requires
        radix == 2 || radix == 8 || radix == 10 || radix == 16,
    ensures
        (power(radix as nat, e) >= power(2, 1024)) <==> (e >= f64_overflow_exponent(radix)),
{
    lemma_two_powers();
    lemma_ten_powers();
    let t = f64_overflow_exponent(radix) as nat;
    if e >= t {
        lemma_power_mono(radix as nat, t, e);
    } else {
        lemma_power_mono(radix as nat, e, (t - 1) as nat);
    }
}

/// The literal `b` without a point, given its exponent, where the digits span
/// `b[pos..end]`. Where the value is no unsigned integer it is evaluated in
/// `f64`; zero digits times a power of the radix too large for a finite
/// `f64` make NaN, which is an error.
pub open spec fn spec_parse_plain(
    b: Seq<u8>,
    radix: u8,
    pos: int,
    end: int,
    exponent: int,
) -> Option<Result<Numeric, NumError>> {
    let seg = b.subrange(pos, end);
    if !int_parse_defined(seg) {
        None
    } else {
        match spec_int_parse(seg, radix as nat, pos) {
            Err(e) => Some(Err(e)),
            Ok(base) => if exponent >= 0 && power(radix as nat, exponent as nat) <= usize::MAX {
                if base * power(radix as nat, exponent as nat) <= usize::MAX {
                    Some(Ok(Numeric::Uint((base * power(radix as nat, exponent as nat)) as usize)))
                } else {
                    Some(
                        Err(
                            NumError {
                                range: Range { start: 0, end: b.len() as usize },
                                kind: NumErrorKind::Overflow,
                            },
                        ),
                    )
                }
            } else if base == 0 && exponent >= 0 && power(radix as nat, exponent as nat) >= power(
                2,
                1024,
            ) {
                Some(
                    Err(
                        NumError {
                            range: Range { start: 0, end: b.len() as usize },
                            kind: NumErrorKind::NaN,
                        },
                    ),
                )
            } else {
                Some(
                    Ok(
                        Numeric::Float(
                            FloatLiteral::Scaled { mantissa: base, radix, exponent: exponent as i32 },
                        ),
                    ),
                )
            },
        }
    }
}

/// Whether `(whole + frac / radix ^ frac_len) * radix ^ exponent`, computed in
/// `f64` the way the decoder does, is NaN; `frac_len` is the length taken as
/// an `i32`. A power of the radix from [f64_overflow_exponent] on is infinite
/// and its reciprocal zero, so NaN comes of `0 / 0`, of `0 * inf` and of
/// `inf * 0`.
pub open spec fn dotted_is_nan(whole: nat, frac: nat, frac_len: int, radix: u8, exponent: int) -> bool {
    let t = f64_overflow_exponent(radix);
    let scale_zero = frac_len < 0 && -frac_len >= t;
    let scale_inf = frac_len >= t;
    let exp_inf = exponent >= t;
    let exp_zero = exponent < 0 && -exponent >= t;
    ||| scale_zero && frac == 0
    ||| whole == 0 && (scale_inf || frac == 0) && exp_inf
    ||| scale_zero && frac > 0 && exp_zero
}

/// The literal `b` with a point at `dot`, given its exponent, where the digits
/// span `b[pos..end]`.
pub open spec fn spec_parse_dotted(
    b: Seq<u8>,
    radix: u8,
    pos: int,
    dot: int,
    end: int,
    exponent: int,
) -> Option<Result<Numeric, NumError>> {
    let whole = b.subrange(pos, dot);
    let part = b.subrange(dot + 1, end);
    if !int_parse_defined(whole) {
        None
    } else {
        match spec_int_parse(whole, radix as nat, pos) {
            Err(e) => Some(Err(e)),
            Ok(w) => if !int_parse_defined(part) {
                None
            } else {
                match spec_int_parse(part, radix as nat, dot + 1) {
                    Err(e) => Some(Err(e)),
                    Ok(f) => if dotted_is_nan(
                        w as nat,
                        f as nat,
                        ((end - dot - 1) as i32) as int,
                        radix,
                        exponent,
                    ) {
                        None
                    } else {
                        Some(
                            Ok(
                                Numeric::Float(
                                    FloatLiteral::Dotted {
                                        whole: w,
                                        frac: f,
                                        frac_len: (end - dot - 1) as usize,
                                        radix,
                                        exponent: exponent as i32,
                                    },
                                ),
                            ),
                        )
                    },
                }
            },
        }
    }
}

/// The mantissa part `b[pos..end]` with its exponent: split at the first point.
pub open spec fn spec_parse_base(b: Seq<u8>, radix: u8, pos: int, end: int, exponent: int) -> Option<
    Result<Numeric, NumError>,
> {
    match find_byte(b, pos, end, 0x2e) {
        None => spec_parse_plain(b, radix, pos, end, exponent),
        Some(dot) => spec_parse_dotted(b, radix, pos, dot, end, exponent),
    }
}

/// What [parse_num] gives for the literal whose UTF-8 bytes are `b`; `None`
/// where the literal holds an empty digit run or an exponent of `-2^31`
/// (modulo `2^32`), or has a point and evaluates to NaN ([dotted_is_nan]),
/// which the decoder does not accept.
pub open spec fn spec_parse_num(b: Seq<u8>) -> Option<Result<Numeric, NumError>> {
    let (radix, pos) = prefix_of(b);
    let n = b.len() as int;
    match find_byte(b, pos, n, 0x70) {
        None => spec_parse_base(b, radix, pos, n, 0),
        Some(p) => {
            let neg = p + 1 < n && b[p + 1] == 0x2d;
            let dstart = if neg {
                p + 2
            } else {
                p + 1
            };
            let d = b.subrange(dstart, n);
            if !int_parse_defined(d) {
                None
            } else {
                match spec_int_parse(d, 10, dstart) {
                    Err(e) => Some(Err(e)),
                    Ok(m) => if neg && (m as i32) == i32::MIN {
                        None
                    } else {
                        spec_parse_base(b, radix, pos, p, signed_exponent(neg, m))
                    },
                }
            }
        },
    }
}

fn find_byte_exec(b: &[u8], lo: usize, hi: usize, x: u8) -> (r: Option<usize>)
    requires
        lo <= hi <= b@.len(),
    ensures
        match r {
            None => find_byte(b@, lo as int, hi as int, x) is None,
            Some(i) => find_byte(b@, lo as int, hi as int, x) == Some(i as int) && lo <= i < hi
                && b@[i as int] == x,
        },
{
    let mut i = lo;
    while i < hi
        invariant
            lo <= i <= hi,
            hi <= b@.len(),
            find_byte(b@, lo as int, hi as int, x) == find_byte(b@, i as int, hi as int, x),
        decreases hi - i,
    {
        if b[i] == x {
            return Some(i);
        }
        i = i + 1;
    }
    None
}

proof fn lemma_find_byte_bounds(b: Seq<u8>, lo: int, hi: int, x: u8)
    requires
        0 <= lo,
        hi <= b.len(),
    ensures
        find_byte(b, lo, hi, x) matches Some(i) ==> lo <= i < hi && b[i] == x,
    decreases hi - lo,
{
    if lo < hi && b[lo] != x {
        lemma_find_byte_bounds(b, lo + 1, hi, x);
    }
}

/// `radix ^ exp` if it fits in a `usize`.
fn checked_pow(radix: usize, exp: u32) -> (r: Option<usize>)
    requires
        radix >= 2,
    ensures
        match r {
            Some(v) => v == power(radix as nat, exp as nat),
            None => power(radix as nat, exp as nat) > usize::MAX,
        },
{
    let mut acc: usize = 1;
    let mut i: u32 = 0;
    while i < exp
        invariant
            i <= exp,
            radix >= 2,
            acc == power(radix as nat, i as nat),
        decreases exp - i,
    {
        match acc.checked_mul(radix) {
            None => {
                proof {
                    assert(power(radix as nat, (i + 1) as nat) == radix * power(
                        radix as nat,
                        i as nat,
                    ));
                    lemma_power_mono(radix as nat, (i + 1) as nat, exp as nat);
                }
                return None;
            },
            Some(v) => {
                acc = v;
            },
        }
        i = i + 1;
    }
    Some(acc)
}

proof fn lemma_strip_defined(seg: Seq<u8>)
    ensures
        int_parse_defined(seg) == (exists|i: int| 0 <= i < seg.len() && seg[i] != 0x5f),
    decreases seg.len(),
{
    if seg.len() > 0 {
        let init = seg.drop_last();
        lemma_strip_defined(init);
        if exists|i: int| 0 <= i < init.len() && init[i] != 0x5f {
            let i = choose|i: int| 0 <= i < init.len() && init[i] != 0x5f;
            assert(seg[i] == init[i]);
        }
        if exists|i: int| 0 <= i < seg.len() && seg[i] != 0x5f {
            let i = choose|i: int| 0 <= i < seg.len() && seg[i] != 0x5f;
            if i < init.len() {
                assert(init[i] == seg[i]);
            }
        }
    }
}

/// Whether the digit run `bytes[lo..hi]` holds a byte other than `_`.
fn has_digit_byte(bytes: &[u8], lo: usize, hi: usize) -> (r: bool)
    requires
        lo <= hi <= bytes@.len(),
    ensures
        r == int_parse_defined(bytes@.subrange(lo as int, hi as int)),
{
    let ghost seg = bytes@.subrange(lo as int, hi as int);
    proof {
        lemma_strip_defined(seg);
    }
    let mut i = lo;
    while i < hi
        invariant
            lo <= i <= hi <= bytes@.len(),
            seg == bytes@.subrange(lo as int, hi as int),
            forall|j: int| lo <= j < i ==> bytes@[j] == 0x5f,
        decreases hi - i,
    {
        if bytes[i] != 0x5f {
            assert(seg[i - lo] == bytes@[i as int]);
            assert(0 <= i - lo < seg.len() && seg[i - lo] != 0x5f);
            assert(exists|j: int| 0 <= j < seg.len() && seg[j] != 0x5f);
            proof {
                lemma_strip_defined(seg);
            }
            return true;
        }
        i = i + 1;
    }
    assert forall|j: int| 0 <= j < seg.len() implies seg[j] == 0x5f by {
        assert(seg[j] == bytes@[lo + j]);
    }
    false
}

fn f64_overflow_exponent_exec(radix: u8) -> (r: i32)
    ensures
        r == f64_overflow_exponent(radix),
{
    if radix == 2 {
        1024
    } else if radix == 8 {
        342
    } else if radix == 10 {
        309
    } else {
        256
    }
}

fn try_parse_base(b: &[u8], radix: u8, pos: usize, end: usize, exponent: i32) -> (r: Option<
    Result<Numeric, NumError>,
>)
    requires
        pos <= end <= b@.len(),
        radix == 2 || radix == 8 || radix == 10 || radix == 16,
    ensures
        r == spec_parse_base(b@, radix, pos as int, end as int, exponent as int),
{
    match find_byte_exec(b, pos, end, 0x2e) {
        None => {
            if !has_digit_byte(b, pos, end) {
                return None;
            }
            let base = match int_parse(b, pos, end, radix, pos) {
                Ok(v) => v,
                Err(e) => {
                    return Some(Err(e));
                },
            };
            if exponent >= 0 {
                let pos_exp = exponent as u32;
                if let Some(radical) = checked_pow(radix as usize, pos_exp) {
                    let overflow_err = NumError {
                        range: Range { start: 0, end: b.len() },
                        kind: NumErrorKind::Overflow,
                    };
                    return match base.checked_mul(radical) {
                        Some(number) => Some(Ok(Numeric::Uint(number))),
                        None => Some(Err(overflow_err)),
                    };
                }
            }
            if base == 0 && exponent >= f64_overflow_exponent_exec(radix) {
                proof {
                    lemma_f64_overflow(radix, exponent as nat);
                }
                return Some(
                    Err(NumError { range: Range { start: 0, end: b.len() }, kind: NumErrorKind::NaN }),
                );
            }
            proof {
                if exponent >= 0 {
                    lemma_f64_overflow(radix, exponent as nat);
                }
            }
            Some(Ok(Numeric::Float(FloatLiteral::Scaled { mantissa: base, radix, exponent })))
        },
        Some(dot) => {
            if !has_digit_byte(b, pos, dot) {
                return None;
            }
            let whole = match int_parse(b, pos, dot, radix, pos) {
                Ok(v) => v,
                Err(e) => {
                    return Some(Err(e));
                },
            };
            if !has_digit_byte(b, dot + 1, end) {
                return None;
            }
            let frac = match int_parse(b, dot + 1, end, radix, dot + 1) {
                Ok(v) => v,
                Err(e) => {
                    return Some(Err(e));
                },
            };
            let t = f64_overflow_exponent_exec(radix) as i64;
            let l = ((end - dot - 1) as i32) as i64;
            let e = exponent as i64;
            let scale_zero = l < 0 && -l >= t;
            let scale_inf = l >= t;
            let exp_inf = e >= t;
            let exp_zero = e < 0 && -e >= t;
            if (scale_zero && frac == 0) || (whole == 0 && (scale_inf || frac == 0) && exp_inf) || (
            scale_zero && frac > 0 && exp_zero) {
                return None;
            }
            Some(
                Ok(
                    Numeric::Float(
                        FloatLiteral::Dotted { whole, frac, frac_len: end - dot - 1, radix, exponent },
                    ),
                ),
            )
        },
    }
}

/// Parse a number literal out of text; `None` where the literal holds an
/// empty digit run or the exponent `-2^31`, or has a point and evaluates to
/// NaN, which the decoder does not accept.
pub fn try_parse_num(string: &str) -> (r: Option<Result<Numeric, NumError>>)
    ensures
        r == spec_parse_num(encode_utf8(string@)),
{
    let b = string.as_bytes();
    let n = b.len();
    let (radix, pos): (u8, usize) = if n >= 2 && b[0] == 0x30 && b[1] == 0x78 {
        (16, 2)
    } else if n >= 2 && b[0] == 0x30 && b[1] == 0x62 {
        (2, 2)
    } else if n >= 2 && b[0] == 0x30 && b[1] == 0x6f {
        (8, 2)
    } else {
        (10, 0)
    };
    match find_byte_exec(b, pos, n, 0x70) {
        None => try_parse_base(b, radix, pos, n, 0),
        Some(p) => {
            let neg = p + 1 < n && b[p + 1] == 0x2d;
            let dstart = if neg {
                p + 2
            } else {
                p + 1
            };
            if !has_digit_byte(b, dstart, n) {
                return None;
            }
            let m = match int_parse(b, dstart, n, 10, dstart) {
                Ok(m) => m,
                Err(e) => {
                    return Some(Err(e));
                },
            };
            let e = m as i32;
            if neg && e == i32::MIN {
                return None;
            }
            let exponent = if neg {
                -e
            } else {
                e
            };
            try_parse_base(b, radix, pos, p, exponent)
        },
    }
}

/// Parse a number literal out of text.
pub fn parse_num(string: &str) -> (r: Result<Numeric, NumError>)
    requires
        spec_parse_num(encode_utf8(string@)) is Some,
    ensures
        Some(r) == spec_parse_num(encode_utf8(string@)),
{
    try_parse_num(string).unwrap()
}

/// Characters that can appear in numbers: alphanumerics, `.`, `_` and `-`.
pub open spec fn spec_numchar(c: char) -> bool {
    spec_is_alphanumeric(c) || c == '.' || c == '_' || c == '-'
}

/// ASCII digits, the characters that can start numbers.
pub open spec fn spec_numstart(c: char) -> bool {
    in_range(c, 0x30, 0x39)
}


proof fn lemma_int_parse_err_range(seg: Seq<u8>, radix: nat, start: int)
    requires
        0 <= start,
        start + seg.len() <= usize::MAX,
    ensures
        spec_int_parse(seg, radix, start) matches Err(e) ==> start == e.range.start
            && e.range.start <= e.range.end <= start + seg.len(),
{
    lemma_strip_len(seg);
}

/// The range of every error [parse_num] reports lies within the literal.
pub proof fn lemma_parse_num_err_range(b: Seq<u8>)
    requires
        b.len() <= usize::MAX,
    ensures
        spec_parse_num(b) matches Some(Err(e)) ==> e.range.start <= e.range.end <= b.len(),
{
    let (radix, pos) = prefix_of(b);
    let n = b.len() as int;
    lemma_find_byte_bounds(b, pos, n, 0x70);
    match find_byte(b, pos, n, 0x70) {
        None => {
            lemma_parse_base_err_range(b, radix, pos, n, 0);
        },
        Some(p) => {
            let neg = p + 1 < n && b[p + 1] == 0x2d;
            let dstart = if neg {
                p + 2
            } else {
                p + 1
            };
            lemma_int_parse_err_range(b.subrange(dstart, n), 10, dstart);
            match spec_int_parse(b.subrange(dstart, n), 10, dstart) {
                Ok(m) => {
                    lemma_parse_base_err_range(b, radix, pos, p, signed_exponent(neg, m));
                },
                Err(_) => {},
            }
        },
    }
}

proof fn lemma_parse_base_err_range(b: Seq<u8>, radix: u8, pos: int, end: int, exponent: int)
    requires
        0 <= pos <= end <= b.len(),
        b.len() <= usize::MAX,
    ensures
        spec_parse_base(b, radix, pos, end, exponent) matches Some(Err(e)) ==> e.range.start
            <= e.range.end <= b.len(),
{
    lemma_find_byte_bounds(b, pos, end, 0x2e);
    match find_byte(b, pos, end, 0x2e) {
        None => {
            lemma_int_parse_err_range(b.subrange(pos, end), radix as nat, pos);
        },
        Some(dot) => {
            lemma_int_parse_err_range(b.subrange(pos, dot), radix as nat, pos);
            lemma_int_parse_err_range(b.subrange(dot + 1, end), radix as nat, dot + 1);
        },
    }
}

/// Filter for characters that can appear in numbers
pub fn numchar(c: char) -> (r: bool)
    ensures
        r == spec_numchar(c),
{
    is_alphanumeric(c) || (c == '.' || c == '_' || c == '-')
}

/// Filter for characters that can start numbers
pub fn numstart(c: char) -> (r: bool)
    ensures
        r == spec_numstart(c),
{
    let u = c as u32;
    0x30 <= u && u <= 0x39
}

/// The number the decimal digits `b` spell after the digits already read
/// into `acc`, most significant first.
pub open spec fn decimal_from(b: Seq<u8>, acc: nat) -> nat
    decreases b.len(),
{
    if b.len() == 0 {
        acc
    } else {
        decimal_from(b.drop_first(), acc * 10 + digit_value(b[0]))
    }
}

/// Whether every byte of `b` is an ASCII decimal digit.
pub open spec fn all_decimal(b: Seq<u8>) -> bool {
    forall|i: int| 0 <= i < b.len() ==> 0x30 <= #[trigger] b[i] <= 0x39
}

proof fn lemma_decimal_from_grows(b: Seq<u8>, acc: nat)
    ensures
        decimal_from(b, acc) >= acc,
    decreases b.len(),
{
    if b.len() > 0 {
        lemma_decimal_from_grows(b.drop_first(), acc * 10 + digit_value(b[0]));
    }
}

proof fn lemma_fold_decimal(b: Seq<u8>, acc: nat)
    requires
        all_decimal(b),
        decimal_from(b, acc) <= usize::MAX,
    ensures
        fold_digits(b, 10, acc) == Ok::<nat, IntErrorKind>(decimal_from(b, acc)),
    decreases b.len(),
{
    if b.len() > 0 {
        let next = acc * 10 + digit_value(b[0]);
        lemma_decimal_from_grows(b.drop_first(), next);
        assert(all_decimal(b.drop_first()));
        lemma_fold_decimal(b.drop_first(), next);
    }
}

proof fn lemma_strip_none(b: Seq<u8>)
    requires
        all_decimal(b),
    ensures
        strip_underscores(b) == b,
    decreases b.len(),
{
    if b.len() > 0 {
        assert(all_decimal(b.drop_last()));
        lemma_strip_none(b.drop_last());
        assert(b.drop_last().push(b.last()) =~= b);
    }
}

proof fn lemma_find_byte_none(b: Seq<u8>, lo: int, hi: int, x: u8)
    requires
        0 <= lo,
        hi <= b.len(),
        forall|i: int| lo <= i < hi ==> b[i] != x,
    ensures
        find_byte(b, lo, hi, x) is None,
    decreases hi - lo,
{
    if lo < hi {
        lemma_find_byte_none(b, lo + 1, hi, x);
    }
}

/// A literal made of decimal digits alone stands for the integer they spell,
/// wherever that integer fits in `usize`.
pub proof fn law_decimal_literal(b: Seq<u8>)
    requires
        b.len() > 0,
        all_decimal(b),
        decimal_from(b, 0) <= usize::MAX,
    ensures
        spec_parse_num(b) == Some(Ok::<Numeric, NumError>(Numeric::Uint(decimal_from(b, 0) as usize))),
{
    let n = b.len() as int;
    assert(prefix_of(b) == (10u8, 0int)) by {
        if b.len() >= 2 {
            assert(0x30 <= b[1] <= 0x39);
        }
    }
    lemma_find_byte_none(b, 0, n, 0x70);
    lemma_find_byte_none(b, 0, n, 0x2e);
    assert(b.subrange(0, n) =~= b);
    lemma_strip_none(b);
    assert(0x30 <= b[0] <= 0x39);
    lemma_fold_decimal(b, 0);
    assert(power(10, 0) == 1);
}

/// The number the digits `b` spell in base `radix` after the digits already
/// read into `acc`, most significant first.
pub open spec fn radix_from(b: Seq<u8>, radix: nat, acc: nat) -> nat
    decreases b.len(),
{
    if b.len() == 0 {
        acc
    } else {
        radix_from(b.drop_first(), radix, acc * radix + digit_value(b[0]))
    }
}

proof fn lemma_radix_from_grows(b: Seq<u8>, radix: nat, acc: nat)
    requires
        radix >= 1,
    ensures
        radix_from(b, radix, acc) >= acc,
    decreases b.len(),
{
    if b.len() > 0 {
        assert(acc * radix >= acc) by (nonlinear_arith)
            requires
                radix >= 1,
        ;
        lemma_radix_from_grows(b.drop_first(), radix, acc * radix + digit_value(b[0]));
    }
}

proof fn lemma_fold_radix(b: Seq<u8>, radix: nat, acc: nat)
    requires
        radix >= 1,
        forall|i: int| 0 <= i < b.len() ==> digit_value(#[trigger] b[i]) < radix,
        radix_from(b, radix, acc) <= usize::MAX,
    ensures
        fold_digits(b, radix, acc) == Ok::<nat, IntErrorKind>(radix_from(b, radix, acc)),
    decreases b.len(),
{
    if b.len() > 0 {
        let next = acc * radix + digit_value(b[0]);
        lemma_radix_from_grows(b.drop_first(), radix, next);
        assert(digit_value(b[0]) < radix);
        assert forall|i: int| 0 <= i < b.drop_first().len() implies digit_value(
            #[trigger] b.drop_first()[i],
        ) < radix by {
            assert(b.drop_first()[i] == b[i + 1]);
        }
        lemma_fold_radix(b.drop_first(), radix, next);
    }
}

proof fn lemma_strip_free(b: Seq<u8>)
    requires
        forall|i: int| 0 <= i < b.len() ==> #[trigger] b[i] != 0x5f,
    ensures
        strip_underscores(b) == b,
    decreases b.len(),
{
    if b.len() > 0 {
        assert(b.last() == b[b.len() - 1]);
        assert forall|i: int| 0 <= i < b.drop_last().len() implies #[trigger] b.drop_last()[i] != 0x5f by {
            assert(b.drop_last()[i] == b[i]);
        }
        lemma_strip_free(b.drop_last());
        assert(b.drop_last().push(b.last()) =~= b);
    }
}

/// A literal of `0x`, `0b` or `0o` and digits of base 16, 2 or 8 stands for
/// the integer those digits spell in that base, wherever it fits in
/// `usize`.
pub proof fn law_prefixed_literal(b: Seq<u8>, radix: nat)
    requires
        b.len() > 2,
        b[0] == 0x30,
        (b[1] == 0x78 && radix == 16) || (b[1] == 0x62 && radix == 2) || (b[1] == 0x6f && radix == 8),
        forall|i: int| 2 <= i < b.len() ==> digit_value(#[trigger] b[i]) < radix,
        radix_from(b.subrange(2, b.len() as int), radix, 0) <= usize::MAX,
    ensures
        spec_parse_num(b) == Some(
            Ok::<Numeric, NumError>(
                Numeric::Uint(radix_from(b.subrange(2, b.len() as int), radix, 0) as usize),
            ),
        ),
{
    let n = b.len() as int;
    let d = b.subrange(2, n);
    assert(prefix_of(b) == (radix as u8, 2int));
    assert forall|i: int| 2 <= i < n implies b[i] != 0x70 && b[i] != 0x2e by {
        assert(digit_value(b[i]) < radix);
    }
    lemma_find_byte_none(b, 2, n, 0x70);
    lemma_find_byte_none(b, 2, n, 0x2e);
    assert forall|i: int| 0 <= i < d.len() implies #[trigger] d[i] != 0x5f && digit_value(d[i]) < radix by {
        assert(d[i] == b[i + 2]);
        assert(digit_value(b[i + 2]) < radix);
    }
    lemma_strip_free(d);
    assert(digit_value(d[0]) < radix);
    assert(d[0] != 0x2b && d[0] != 0x2d);
    lemma_fold_radix(d, radix, 0);
    assert(power(radix, 0) == 1);
}

proof fn lemma_find_byte_at(b: Seq<u8>, lo: int, hi: int, x: u8, k: int)
    requires
        0 <= lo <= k < hi <= b.len(),
        b[k] == x,
        forall|i: int| lo <= i < k ==> b[i] != x,
    ensures
        find_byte(b, lo, hi, x) == Some(k),
    decreases k - lo,
{
    if lo < k {
        lemma_find_byte_at(b, lo + 1, hi, x, k);
    }
}

proof fn lemma_small_exponent(radix: nat, e: nat)
    requires
        radix >= 2,
        power(radix, e) <= usize::MAX,
    ensures
        e < 64,
{
    if e >= 64 {
        assert(power(2, 16) == 65536) by {
            reveal_with_fuel(power, 17);
        }
        lemma_power_pow(2, 16, 4);
        assert(power(65536, 4) == 0x1_0000_0000_0000_0000) by {
            reveal_with_fuel(power, 5);
        }
        lemma_power_mono(2, 64, e);
        lemma_power_base_mono(2, radix, e);
    }
}

proof fn lemma_mantissa_run(m: Seq<u8>, radix: nat, ex: nat, start: int)
    requires
        2 <= radix <= 16,
        m.len() > 0,
        forall|i: int| 0 <= i < m.len() ==> digit_value(#[trigger] m[i]) < radix,
        radix_from(m, radix, 0) * power(radix, ex) <= usize::MAX,
    ensures
        radix_from(m, radix, 0) <= usize::MAX,
        int_parse_defined(m),
        spec_int_parse(m, radix, start) == Ok::<usize, NumError>(radix_from(m, radix, 0) as usize),
{
    let mant = radix_from(m, radix, 0);
    lemma_power_mono(radix, 0, ex);
    assert(power(radix, 0) == 1);
    assert(mant <= mant * power(radix, ex)) by (nonlinear_arith)
        requires
            power(radix, ex) >= 1,
    ;
    assert forall|i: int| 0 <= i < m.len() implies #[trigger] m[i] != 0x5f by {
        assert(digit_value(m[i]) < radix);
    }
    lemma_strip_free(m);
    assert(digit_value(m[0]) < radix);
    assert(m[0] != 0x2b && m[0] != 0x2d);
    lemma_fold_radix(m, radix, 0);
}

proof fn lemma_exponent_run(e: Seq<u8>, radix: nat, start: int)
    requires
        radix >= 2,
        e.len() > 0,
        all_decimal(e),
        power(radix, decimal_from(e, 0)) <= usize::MAX,
    ensures
        decimal_from(e, 0) < 64,
        int_parse_defined(e),
        spec_int_parse(e, 10, start) == Ok::<usize, NumError>(decimal_from(e, 0) as usize),
        signed_exponent(false, decimal_from(e, 0) as usize) == decimal_from(e, 0),
{
    let ex = decimal_from(e, 0);
    assert(0x30 <= e[0] <= 0x39);
    lemma_strip_none(e);
    lemma_small_exponent(radix, ex);
    lemma_fold_decimal(e, 0);
}

/// A literal with an exponent stands for its mantissa times the radix to
/// the power of the exponent: digits `m` of base 10, or of base 16, 2 or 8
/// after `0x`, `0b` or `0o`, then `p` and the decimal digits `e` make the
/// integer `m * radix ^ e`, wherever that power and that product fit in
/// `usize`.
#[verifier::rlimit(40)]
pub proof fn law_exponent_literal(pre: Seq<u8>, m: Seq<u8>, e: Seq<u8>, radix: nat)
    requires
        (pre.len() == 0 && radix == 10) || (pre == seq![0x30u8, 0x78u8] && radix == 16) || (pre
            == seq![0x30u8, 0x62u8] && radix == 2) || (pre == seq![0x30u8, 0x6fu8] && radix == 8),
        m.len() > 0,
        forall|i: int| 0 <= i < m.len() ==> digit_value(#[trigger] m[i]) < radix,
        e.len() > 0,
        all_decimal(e),
        power(radix, decimal_from(e, 0)) <= usize::MAX,
        radix_from(m, radix, 0) * power(radix, decimal_from(e, 0)) <= usize::MAX,
    ensures
        spec_parse_num(pre + m + seq![0x70u8] + e) == Some(
            Ok::<Numeric, NumError>(
                Numeric::Uint(
                    (radix_from(m, radix, 0) * power(radix, decimal_from(e, 0))) as usize,
                ),
            ),
        ),
{
    let b = pre + m + seq![0x70u8] + e;
    let n = b.len() as int;
    let pos = pre.len() as int;
    let p = pos + m.len();
    let ex = decimal_from(e, 0);
    let mant = radix_from(m, radix, 0);
    assert forall|i: int| 0 <= i < m.len() implies #[trigger] m[i] != 0x70 && m[i] != 0x2e by {
        assert(digit_value(m[i]) < radix);
    }
    assert(prefix_of(b) == (radix as u8, pos)) by {
        assert(b[0] == if pos == 0 { m[0] } else { pre[0] });
        if pos == 0 {
            assert(digit_value(m[0]) < 10);
            if m.len() >= 2 {
                assert(b[1] == m[1]);
                assert(digit_value(m[1]) < 10);
            } else {
                assert(b[1] == 0x70);
            }
        } else {
            assert(b[1] == pre[1]);
        }
    }
    assert forall|i: int| pos <= i < p implies b[i] != 0x70 && b[i] != 0x2e by {
        assert(b[i] == m[i - pos]);
    }
    assert(b[p] == 0x70);
    lemma_find_byte_at(b, pos, n, 0x70, p);
    assert(b.subrange(p + 1, n) =~= e);
    assert(b[p + 1] == e[0]);
    lemma_exponent_run(e, radix, p + 1);
    lemma_find_byte_none(b, pos, p, 0x2e);
    assert(b.subrange(pos, p) =~= m);
    lemma_mantissa_run(m, radix, ex, pos);
    assert(spec_parse_num(b) == spec_parse_base(b, radix as u8, pos, p, ex as int));
    assert(spec_parse_base(b, radix as u8, pos, p, ex as int) == spec_parse_plain(
        b,
        radix as u8,
        pos,
        p,
        ex as int,
    ));
}

/// `c` is `a` with some of its lowercase ASCII letters in upper case.
pub open spec fn letters_upcased(a: Seq<u8>, c: Seq<u8>) -> bool {
    &&& c.len() == a.len()
    &&& forall|i: int|
        0 <= i < a.len() ==> (#[trigger] c[i] == a[i] || (0x61 <= a[i] <= 0x7a && c[i] + 0x20 == a[i]))
}

/// The letters `a` to `z` and `A` to `Z` are the digits ten to thirty-five,
/// as `char::to_digit` reads them.
pub proof fn law_letter_digits(k: u8)
    requires
        k < 26,
    ensures
        digit_value((0x61 + k) as u8) == 10 + k,
        digit_value((0x41 + k) as u8) == 10 + k,
{
}

proof fn lemma_upcased_sub(a: Seq<u8>, c: Seq<u8>, lo: int, hi: int)
    requires
        letters_upcased(a, c),
        0 <= lo <= hi <= a.len(),
    ensures
        letters_upcased(a.subrange(lo, hi), c.subrange(lo, hi)),
{
    assert forall|i: int| 0 <= i < hi - lo implies (#[trigger] c.subrange(lo, hi)[i] == a.subrange(lo, hi)[i] || (
    0x61 <= a.subrange(lo, hi)[i] <= 0x7a && c.subrange(lo, hi)[i] + 0x20 == a.subrange(lo, hi)[i])) by {
        assert(c[lo + i] == a[lo + i] || (0x61 <= a[lo + i] <= 0x7a && c[lo + i] + 0x20 == a[lo + i]));
    }
}

proof fn lemma_strip_upcased(a: Seq<u8>, c: Seq<u8>)
    requires
        letters_upcased(a, c),
    ensures
        letters_upcased(strip_underscores(a), strip_underscores(c)),
    decreases a.len(),
{
    if a.len() > 0 {
        lemma_upcased_sub(a, c, 0, a.len() - 1);
        assert(a.drop_last() =~= a.subrange(0, a.len() - 1));
        assert(c.drop_last() =~= c.subrange(0, c.len() - 1));
        lemma_strip_upcased(a.drop_last(), c.drop_last());
        assert(c[a.len() - 1] == a[a.len() - 1] || (0x61 <= a[a.len() - 1] <= 0x7a && c[a.len() - 1] + 0x20
            == a[a.len() - 1]));
        let sa = strip_underscores(a.drop_last());
        let sc = strip_underscores(c.drop_last());
        if a.last() != 0x5f {
            assert(c.last() != 0x5f);
            assert forall|i: int| 0 <= i < sa.len() + 1 implies (#[trigger] sc.push(c.last())[i] == sa.push(
                a.last(),
            )[i] || (0x61 <= sa.push(a.last())[i] <= 0x7a && sc.push(c.last())[i] + 0x20 == sa.push(
                a.last(),
            )[i])) by {
                if i < sa.len() {
                    assert(sc[i] == sa[i] || (0x61 <= sa[i] <= 0x7a && sc[i] + 0x20 == sa[i]));
                }
            }
        }
    }
}

proof fn lemma_fold_upcased(a: Seq<u8>, c: Seq<u8>, radix: nat, acc: nat)
    requires
        letters_upcased(a, c),
    ensures
        fold_digits(c, radix, acc) == fold_digits(a, radix, acc),
    decreases a.len(),
{
    if a.len() > 0 {
        assert(c[0] == a[0] || (0x61 <= a[0] <= 0x7a && c[0] + 0x20 == a[0]));
        assert(digit_value(c[0]) == digit_value(a[0]));
        lemma_upcased_sub(a, c, 1, a.len() as int);
        assert(a.drop_first() =~= a.subrange(1, a.len() as int));
        assert(c.drop_first() =~= c.subrange(1, c.len() as int));
        lemma_fold_upcased(a.drop_first(), c.drop_first(), radix, acc * radix + digit_value(a[0]));
    }
}

proof fn lemma_int_parse_upcased(a: Seq<u8>, c: Seq<u8>, radix: nat, start: int)
    requires
        letters_upcased(a, c),
    ensures
        spec_int_parse(c, radix, start) == spec_int_parse(a, radix, start),
        int_parse_defined(c) == int_parse_defined(a),
{
    lemma_strip_upcased(a, c);
    let da = strip_underscores(a);
    let dc = strip_underscores(c);
    if da.len() > 0 {
        assert(dc[0] == da[0] || (0x61 <= da[0] <= 0x7a && dc[0] + 0x20 == da[0]));
        if da[0] == 0x2b {
            lemma_upcased_sub(da, dc, 1, da.len() as int);
            assert(da.drop_first() =~= da.subrange(1, da.len() as int));
            assert(dc.drop_first() =~= dc.subrange(1, dc.len() as int));
            lemma_fold_upcased(da.drop_first(), dc.drop_first(), radix, 0);
        } else {
            lemma_fold_upcased(da, dc, radix, 0);
        }
    }
}

/// Digits in a run are read without regard to case: upper-casing any of its
/// letters changes nothing in what the run decodes to.
pub proof fn law_digit_run_case(a: Seq<u8>, c: Seq<u8>, radix: nat, start: int)
    requires
        letters_upcased(a, c),
    ensures
        spec_int_parse(c, radix, start) == spec_int_parse(a, radix, start),
{
    lemma_int_parse_upcased(a, c, radix, start);
}

proof fn lemma_find_byte_same(a: Seq<u8>, c: Seq<u8>, lo: int, hi: int, x: u8)
    requires
        0 <= lo,
        hi <= a.len(),
        a.len() == c.len(),
        forall|i: int| lo <= i < hi ==> (a[i] == x <==> c[i] == x),
    ensures
        find_byte(c, lo, hi, x) == find_byte(a, lo, hi, x),
    decreases hi - lo,
{
    if lo < hi {
        lemma_find_byte_same(a, c, lo + 1, hi, x);
    }
}

proof fn lemma_parse_base_upcased(a: Seq<u8>, c: Seq<u8>, radix: u8, pos: int, end: int, exponent: int)
    requires
        0 <= pos <= end <= a.len(),
        a.len() == c.len(),
        letters_upcased(a.subrange(pos, end), c.subrange(pos, end)),
    ensures
        spec_parse_base(c, radix, pos, end, exponent) == spec_parse_base(a, radix, pos, end, exponent),
{
    assert forall|i: int| pos <= i < end implies (a[i] == 0x2e <==> c[i] == 0x2e) by {
        assert(c.subrange(pos, end)[i - pos] == a.subrange(pos, end)[i - pos] || (0x61 <= a.subrange(
            pos,
            end,
        )[i - pos] <= 0x7a && c.subrange(pos, end)[i - pos] + 0x20 == a.subrange(pos, end)[i - pos]));
    }
    lemma_find_byte_same(a, c, pos, end, 0x2e);
    match find_byte(a, pos, end, 0x2e) {
        None => {
            lemma_int_parse_upcased(a.subrange(pos, end), c.subrange(pos, end), radix as nat, pos);
        },
        Some(dot) => {
            lemma_find_byte_bounds(a, pos, end, 0x2e);
            let sa = a.subrange(pos, end);
            let sc = c.subrange(pos, end);
            lemma_upcased_sub(sa, sc, 0, dot - pos);
            assert(sa.subrange(0, dot - pos) =~= a.subrange(pos, dot));
            assert(sc.subrange(0, dot - pos) =~= c.subrange(pos, dot));
            lemma_upcased_sub(sa, sc, dot + 1 - pos, end - pos);
            assert(sa.subrange(dot + 1 - pos, end - pos) =~= a.subrange(dot + 1, end));
            assert(sc.subrange(dot + 1 - pos, end - pos) =~= c.subrange(dot + 1, end));
            lemma_int_parse_upcased(a.subrange(pos, dot), c.subrange(pos, dot), radix as nat, pos);
            lemma_int_parse_upcased(
                a.subrange(dot + 1, end),
                c.subrange(dot + 1, end),
                radix as nat,
                dot + 1,
            );
        },
    }
}

/// Digit letters are read without regard to case: upper-casing letters of a
/// literal after its radix prefix, other than the `p` that marks an exponent,
/// changes nothing in what [parse_num] makes of it.
pub proof fn law_digit_case(b: Seq<u8>, c: Seq<u8>)
    requires
        c.len() == b.len(),
        forall|i: int|
            0 <= i < b.len() ==> (#[trigger] c[i] == b[i] || (prefix_of(b).1 <= i && b[i] != 0x70 && 0x61
                <= b[i] <= 0x7a && c[i] + 0x20 == b[i])),
    ensures
        spec_parse_num(c) == spec_parse_num(b),
{
    let (radix, pos) = prefix_of(b);
    let n = b.len() as int;
    assert(prefix_of(c) == prefix_of(b)) by {
        if b.len() >= 2 {
            assert(c[0] == b[0] || (pos <= 0 && b[0] != 0x70 && 0x61 <= b[0] <= 0x7a && c[0] + 0x20 == b[0]));
            assert(c[1] == b[1] || (pos <= 1 && b[1] != 0x70 && 0x61 <= b[1] <= 0x7a && c[1] + 0x20 == b[1]));
        }
    }
    assert(0 <= pos <= n) by {
        if b.len() < 2 {
            assert(pos == 0);
        }
    }
    assert(letters_upcased(b.subrange(pos, n), c.subrange(pos, n))) by {
        assert forall|i: int| 0 <= i < n - pos implies (#[trigger] c.subrange(pos, n)[i] == b.subrange(
            pos,
            n,
        )[i] || (0x61 <= b.subrange(pos, n)[i] <= 0x7a && c.subrange(pos, n)[i] + 0x20 == b.subrange(
            pos,
            n,
        )[i])) by {
            assert(c[pos + i] == b[pos + i] || (pos <= pos + i && b[pos + i] != 0x70 && 0x61 <= b[pos + i]
                <= 0x7a && c[pos + i] + 0x20 == b[pos + i]));
        }
    }
    assert forall|i: int| pos <= i < n implies (b[i] == 0x70 <==> c[i] == 0x70) by {
        assert(c[i] == b[i] || (pos <= i && b[i] != 0x70 && 0x61 <= b[i] <= 0x7a && c[i] + 0x20 == b[i]));
    }
    lemma_find_byte_same(b, c, pos, n, 0x70);
    match find_byte(b, pos, n, 0x70) {
        None => {
            lemma_parse_base_upcased(b, c, radix, pos, n, 0);
        },
        Some(p) => {
            lemma_find_byte_bounds(b, pos, n, 0x70);
            let sb = b.subrange(pos, n);
            let sc = c.subrange(pos, n);
            if p + 1 < n {
                assert(c[p + 1] == b[p + 1] || (pos <= p + 1 && b[p + 1] != 0x70 && 0x61 <= b[p + 1] <= 0x7a
                    && c[p + 1] + 0x20 == b[p + 1]));
            }
            let neg = p + 1 < n && b[p + 1] == 0x2d;
            let dstart = if neg {
                p + 2
            } else {
                p + 1
            };
            lemma_upcased_sub(sb, sc, 0, p - pos);
            assert(sb.subrange(0, p - pos) =~= b.subrange(pos, p));
            assert(sc.subrange(0, p - pos) =~= c.subrange(pos, p));
            lemma_upcased_sub(sb, sc, dstart - pos, n - pos);
            assert(sb.subrange(dstart - pos, n - pos) =~= b.subrange(dstart, n));
            assert(sc.subrange(dstart - pos, n - pos) =~= c.subrange(dstart, n));
            lemma_int_parse_upcased(b.subrange(dstart, n), c.subrange(dstart, n), 10, dstart);
            let d = b.subrange(dstart, n);
            if int_parse_defined(d) {
                match spec_int_parse(d, 10, dstart) {
                    Err(e) => {},
                    Ok(m) => {
                        lemma_parse_base_upcased(b, c, radix, pos, p, signed_exponent(neg, m));
                    },
                }
            }
        },
    }
}

/// The built-in lexer for a number literal.
pub struct NumericLexer;

impl NumericLexer {
    /// Lex the number literal at the start of `tail`, if it starts with one.
    pub fn lex<'a>(&self, tail: &'a str) -> (r: Option<Result<LexRes<'a>, LexError>>)
        requires
            tail@.len() > 0 && spec_numstart(tail@[0]) ==> !(number_step(tail@, 0) is Stuck),
        ensures
            !(tail@.len() > 0 && spec_numstart(tail@[0])) ==> r is None,
            tail@.len() > 0 && spec_numstart(tail@[0]) ==> match number_step(tail@, 0) {
                LexStep::Fail(e) => r matches Some(Err(e2)) && e2 == e,
                LexStep::Token(t, k) => r matches Some(Ok(res)) && entry_views(res.tokens@) == seq![t]
                    && res.tail@ == tail@.skip(k),
                _ => false,
            },
    {
        let (s, offs) = lex_setup(tail);
        if !(s.len() > 0 && numstart(s[0])) {
            return None;
        }
        match lex_number(tail, &s, &offs, 0) {
            ExecStep::Token(t, k) => {
                let rest = tail.substring_char(k, s.len());
                assert(rest@ =~= tail@.skip(k as int));
                let tokens = vec![t];
                assert(entry_views(tokens@) =~= seq![t@]);
                Some(Ok(LexRes { tail: rest, tokens }))
            },
            ExecStep::Fail(e) => Some(Err(e)),
            ExecStep::Skip | ExecStep::Stuck => None,
        }
    }
}

} // verus!
