//! The multi-radix numeric literal parser.
//!
//! A literal is decimal by default.  A leading `0` switches the radix to
//! octal and is dropped; a leading backslash is dropped as well.  After that
//! one drop, a leading `x`, `o` or `b` selects hexadecimal, octal or binary
//! and is also dropped.  What remains must be a non-empty run of digits of
//! the selected radix whose value fits in `usize`.  So `"123"` is decimal
//! 123, `"0123"` is octal (83), `"0x08000000"` is hexadecimal, `"0b101"` is
//! 5, `"\x1A"` is hexadecimal 26, and a bare `"0"` is malformed because the
//! drop demands that at least one character follow it.

use vstd::prelude::*;
use crate::text::chars_of;

verus! {

/// Failure of the numeric literal parser: an empty or too-short token, a
/// digit that does not belong to the selected radix, or a value that does
/// not fit in `usize`.
#[derive(Clone, Copy, Debug, PartialEq, Eq, Structural)]
pub struct NumericParseError;

/// The value of `c` as a digit, as `usize::from_str_radix` reads digits
/// (letters of either case count from ten); a sentinel above every
/// supported radix when `c` is no digit at all.
pub open spec fn digit_val(c: char) -> int {
    let u = c as u32;
    if 48 <= u <= 57 {
        u - 48
    } else if 97 <= u <= 122 {
        u - 87
    } else if 65 <= u <= 90 {
        u - 55
    } else {
        99
    }
}

/// Whether `c` is a digit of the given radix.
pub open spec fn is_digit(c: char, radix: int) -> bool {
    digit_val(c) < radix
}

/// Whether every character of `s` is a digit of the given radix.
pub open spec fn all_digits(s: Seq<char>, radix: int) -> bool {
    forall|i: int| 0 <= i < s.len() ==> is_digit(s[i], radix)
}

/// The value of the digit string `s` read in the given radix, most
/// significant digit first.
pub open spec fn digits_value(s: Seq<char>, radix: int) -> int
    decreases s.len(),
{
    if s.len() == 0 {
        0
    } else {
        digits_value(s.drop_last(), radix) * radix + digit_val(s.last())
    }
}

/// The second prefix step: after the optional one-character drop, a leading
/// `x`, `o` or `b` re-selects the radix and is dropped in turn.
pub open spec fn radix_refine(radix: int, s: Seq<char>) -> Option<(int, Seq<char>)> {
    if s.len() > 0 && (s[0] == 'x' || s[0] == 'o' || s[0] == 'b') {
        if s.len() < 2 {
            None
        } else if s[0] == 'x' {
            Some((16, s.drop_first()))
        } else if s[0] == 'o' {
            Some((8, s.drop_first()))
        } else {
            Some((2, s.drop_first()))
        }
    } else {
        Some((radix, s))
    }
}

/// The radix selected by the prefix of `s` and the digit string that
/// follows it, or `None` when the prefix itself is malformed.
pub open spec fn numeric_split(s: Seq<char>) -> Option<(int, Seq<char>)> {
    if s.len() == 0 {
        None
    } else if s[0] == '0' || s[0] == '\\' {
        if s.len() < 2 {
            None
        } else if s[0] == '0' {
            radix_refine(8, s.drop_first())
        } else {
            radix_refine(10, s.drop_first())
        }
    } else {
        radix_refine(10, s)
    }
}

/// Whether `s` is a well-formed numeric literal whose value fits in `usize`.
pub open spec fn numeric_ok(s: Seq<char>) -> bool {
    match numeric_split(s) {
        None => false,
        Some((radix, ds)) => ds.len() > 0 && all_digits(ds, radix) && digits_value(ds, radix)
            <= usize::MAX,
    }
}

/// The value of the well-formed numeric literal `s`.
pub open spec fn numeric_value(s: Seq<char>) -> int {
    match numeric_split(s) {
        None => 0,
        Some((radix, ds)) => digits_value(ds, radix),
    }
}

/// A digit string's value is never negative.
pub proof fn lemma_digits_value_nonneg(s: Seq<char>, radix: int)
    requires
        radix >= 2,
    ensures
        digits_value(s, radix) >= 0,
    decreases s.len(),
{
    if s.len() > 0 {
        lemma_digits_value_nonneg(s.drop_last(), radix);
    }
}

/// A digit string's value is at least the value of any of its prefixes.
pub proof fn lemma_digits_value_prefix(s: Seq<char>, radix: int, k: int)
    requires
        radix >= 2,
        0 <= k <= s.len(),
    ensures
        digits_value(s.take(k), radix) <= digits_value(s, radix),
    decreases s.len(),
{
    if k == s.len() {
        assert(s.take(k) =~= s);
    } else {
        lemma_digits_value_prefix(s.drop_last(), radix, k);
        assert(s.drop_last().take(k) =~= s.take(k));
        lemma_digits_value_nonneg(s.drop_last(), radix);
        let v = digits_value(s.drop_last(), radix);
        assert(v * radix >= v) by (nonlinear_arith)
            requires
                v >= 0,
                radix >= 2,
        ;
        assert(digit_val(s.last()) >= 0);
    }
}

/// The value of `c` as a digit of the given radix, when it is one.
pub fn digit_of(c: char, radix: u32) -> (r: Option<u32>)
    requires
        2 <= radix <= 36,
    ensures
        r is Some <==> is_digit(c, radix as int),
        r matches Some(d) ==> d == digit_val(c),
{
    let u = c as u32;
    let d: u32 = if 48 <= u && u <= 57 {
        u - 48
    } else if 97 <= u && u <= 122 {
        u - 87
    } else if 65 <= u && u <= 90 {
        u - 55
    } else {
        99
    };
    if d < radix {
        Some(d)
    } else {
        None
    }
}

/// Reads the digit run `s[from..to]` in the given radix.  Yields `None`
/// when the run is empty, holds a character that is no digit of the radix,
/// or has a value above `usize::MAX`.
pub fn parse_digits(s: &Vec<char>, from: usize, to: usize, radix: u32) -> (r: Option<usize>)
    requires
        from <= to <= s@.len(),
        2 <= radix <= 36,
    ensures
        ({
            let ds = s@.subrange(from as int, to as int);
            &&& (r is Some <==> (ds.len() > 0 && all_digits(ds, radix as int) && digits_value(
                ds,
                radix as int,
            ) <= usize::MAX))
            &&& (r matches Some(v) ==> v == digits_value(ds, radix as int))
        }),
{
    let ghost ds = s@.subrange(from as int, to as int);
    if from == to {
        return None;
    }
    let mut acc: usize = 0;
    let mut i: usize = from;
    while i < to
        invariant
            from <= i <= to <= s@.len(),
            2 <= radix <= 36,
            ds == s@.subrange(from as int, to as int),
            all_digits(ds.take(i - from), radix as int),
            acc == digits_value(ds.take(i - from), radix as int),
        decreases to - i,
    {
        let ghost k = i - from;
        proof {
            assert(ds[k] == s@[i as int]);
            assert(ds.take(k + 1).drop_last() =~= ds.take(k));
            assert(ds.take(k + 1).last() == ds[k]);
        }
        let c = s[i];
        let d: u32 = match digit_of(c, radix) {
            Some(d) => d,
            None => {
                proof {
                    assert(!is_digit(ds[k], radix as int));
                }
                return None;
            },
        };
        let step: usize = match acc.checked_mul(radix as usize) {
            Some(m) => {
                match m.checked_add(d as usize) {
                    Some(v) => v,
                    None => {
                        proof {
                            lemma_digits_value_prefix(ds, radix as int, k + 1);
                        }
                        return None;
                    },
                }
            },
            None => {
                proof {
                    lemma_digits_value_nonneg(ds.take(k), radix as int);
                    assert(digit_val(ds[k]) >= 0);
                    lemma_digits_value_prefix(ds, radix as int, k + 1);
                }
                return None;
            },
        };
        acc = step;
        i += 1;
    }
    proof {
        assert(ds.take(to - from) =~= ds);
    }
    Some(acc)
}

/// Reads a whole numeric literal held in `s`.
pub fn usize_from_chars(s: &Vec<char>) -> (r: Result<usize, NumericParseError>)
    ensures
        r is Ok <==> numeric_ok(s@),
        r matches Ok(v) ==> v == numeric_value(s@),
{
    if s.len() == 0 {
        return Err(NumericParseError);
    }
    let mut radix: u32 = 10;
    let mut pos: usize = 0;
    let c0 = s[0];
    if c0 == '0' || c0 == '\\' {
        if s.len() < 2 {
            return Err(NumericParseError);
        }
        if c0 == '0' {
            radix = 8;
        }
        pos = 1;
    }
    proof {
        assert(s@.drop_first() =~= s@.skip(1));
        assert(s@.skip(0) =~= s@);
    }
    if pos < s.len() && (s[pos] == 'x' || s[pos] == 'o' || s[pos] == 'b') {
        if s.len() - pos < 2 {
            return Err(NumericParseError);
        }
        let cp = s[pos];
        radix = if cp == 'x' {
            16
        } else if cp == 'o' {
            8
        } else {
            2
        };
        pos = pos + 1;
    }
    proof {
        assert(s@.skip(0).drop_first() =~= s@.skip(1));
        if s@.len() >= 2 {
            assert(s@.skip(1).drop_first() =~= s@.skip(2));
        }
        assert(numeric_split(s@) matches Some(p) && p.0 == radix as int && p.1 == s@.skip(
            pos as int,
        ));
        assert(s@.skip(pos as int) =~= s@.subrange(pos as int, s@.len() as int));
    }
    match parse_digits(s, pos, s.len(), radix) {
        Some(v) => Ok(v),
        None => Err(NumericParseError),
    }
}

/// Reads a numeric literal from a string, as the command line hands it in.
pub fn usize_from_string(instr: &str) -> (r: Result<usize, NumericParseError>)
    ensures
        r is Ok <==> numeric_ok(instr@),
        r matches Ok(v) ==> v == numeric_value(instr@),
{
    let chars = chars_of(instr);
    usize_from_chars(&chars)
}

/// A run of decimal digits that does not start with `0` is read at face
/// value: no prefix rule fires, and the result is its radix-10 value.  (A
/// leading `0`, as in `"0123"`, instead selects octal.)
pub proof fn lemma_decimal_value(s: Seq<char>)
    requires
        s.len() > 0,
        s[0] != '0',
        all_digits(s, 10),
        digits_value(s, 10) <= usize::MAX,
    ensures
        numeric_ok(s),
        numeric_value(s) == digits_value(s, 10),
{
    assert(is_digit(s[0], 10));
    assert(s[0] as u32 <= 57);
}

} // verus!
