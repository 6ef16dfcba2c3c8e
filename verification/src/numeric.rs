//! Numeric field bodies: the integer parser and the float literal check.
//!
//! An integer field body must be, after trimming surrounding whitespace, a
//! full signed decimal literal in the range of `i64`. A float field body
//! must be, after the same trimming, a full decimal literal as a float
//! accepts it: an optional sign, then digits with an optional point and an
//! optional exponent, or one of the words `inf`, `infinity` and `nan` in
//! any letter case. No partial match is accepted: leftover characters are
//! a parse failure.

use vstd::prelude::*;

use crate::disposition::lemma_strip_back;
use crate::disposition::lemma_strip_front;
use crate::disposition::strip_back;
use crate::disposition::strip_front;
use crate::text::char_pos;
use crate::text::find_char;

verus! {

/// The whitespace trimmed around numeric field bodies.
pub open spec fn is_ws(c: char) -> bool {
    c == ' ' || c == '\t' || c == '\r' || c == '\n'
}

/// `s` with whitespace trimmed from both ends.
pub open spec fn ws_trimmed(s: Seq<char>) -> Seq<char> {
    strip_back(strip_front(s, |c: char| is_ws(c)), |c: char| is_ws(c))
}

/// A decimal digit.
pub open spec fn is_digit(c: char) -> bool {
    '0' <= c && c <= '9'
}

/// The numeric value of a decimal digit.
pub open spec fn digit_of(c: char) -> int {
    c as int - '0' as int
}

/// Every character of `s` is a decimal digit.
pub open spec fn all_digits(s: Seq<char>) -> bool {
    forall|i: int| 0 <= i < s.len() ==> is_digit(s[i])
}

/// The value of a digit string read in base ten.
pub open spec fn digits_val(s: Seq<char>) -> int
    decreases s.len(),
{
    if s.len() == 0 {
        0
    } else {
        digits_val(s.drop_last()) * 10 + digit_of(s.last())
    }
}

/// A digit string's value never falls when digits are appended.
pub proof fn lemma_digits_val_grows(s: Seq<char>, k: int)
    requires
        0 <= k <= s.len(),
        all_digits(s),
    ensures
        digits_val(s) >= digits_val(s.subrange(0, k)),
        digits_val(s) >= 0,
    decreases s.len(),
{
    if s.len() > 0 {
        lemma_digits_val_grows(s.drop_last(), if k < s.len() { k } else { k - 1 });
        if k < s.len() {
            assert(s.drop_last().subrange(0, k) =~= s.subrange(0, k));
        } else {
            assert(s.subrange(0, k) =~= s);
        }
        assert(digit_of(s.last()) >= 0);
    } else {
        assert(s.subrange(0, 0) =~= s);
    }
}

/// The integer a full signed decimal literal denotes, or nothing when the
/// text is not such a literal or its value escapes `i64`.
pub open spec fn int_literal_parse(s: Seq<char>) -> Option<i64> {
    let neg = s.len() > 0 && s[0] == '-';
    let digits = if s.len() > 0 && (s[0] == '-' || s[0] == '+') {
        s.drop_first()
    } else {
        s
    };
    if digits.len() == 0 || !all_digits(digits) {
        None
    } else {
        let v = if neg {
            -digits_val(digits)
        } else {
            digits_val(digits)
        };
        if i64::MIN <= v <= i64::MAX {
            Some(v as i64)
        } else {
            None
        }
    }
}

/// Parse a full signed decimal literal into an `i64`.
#[verifier::loop_isolation(false)]
pub fn parse_i64(s: &str) -> (r: Option<i64>)
    ensures
        r == int_literal_parse(s@),
{
    let n = s.unicode_len();
    let mut start: usize = 0;
    let mut neg = false;
    if n > 0 {
        let c0 = s.get_char(0);
        if c0 == '-' {
            neg = true;
            start = 1;
        } else if c0 == '+' {
            start = 1;
        }
    }
    let ghost digits = if start == 1 {
        s@.drop_first()
    } else {
        s@
    };
    proof {
        if start == 1 {
            assert(digits =~= s@.subrange(1, n as int));
        } else {
            assert(digits =~= s@.subrange(0, n as int));
        }
    }
    if start == n {
        return None;
    }
    let limit: u64 = if neg {
        9223372036854775808
    } else {
        9223372036854775807
    };
    let mut mag: u64 = 0;
    let mut i: usize = start;
    while i < n
        invariant
            start <= i <= n,
            mag <= limit,
            all_digits(s@.subrange(start as int, i as int)),
            mag == digits_val(s@.subrange(start as int, i as int)),
        decreases n - i,
    {
        let c = s.get_char(i);
        if !(c >= '0' && c <= '9') {
            proof {
                assert(digits[i - start] == s@[i as int]);
                assert(!all_digits(digits));
            }
            return None;
        }
        let d: u64 = (c as u32 - 48) as u64;
        let ghost prefix = s@.subrange(start as int, i as int);
        let ghost prefix1 = s@.subrange(start as int, i as int + 1);
        proof {
            assert(prefix1.drop_last() =~= prefix);
            assert(prefix1.last() == s@[i as int]);
            assert(digits_val(prefix1) == mag * 10 + d);
        }
        if mag > limit / 10 || (mag == limit / 10 && d > limit % 10) {
            // The digits already read put the magnitude past the i64
            // range, and further digits can only grow it; a non-digit
            // later fails the parse just the same.
            proof {
                assert(mag * 10 + d > limit) by {
                    if mag > limit / 10 {
                        assert(mag >= limit / 10 + 1);
                        assert(mag * 10 >= (limit / 10 + 1) * 10);
                    }
                };
                if all_digits(digits) {
                    assert(digits.subrange(0, i + 1 - start) =~= prefix1);
                    lemma_digits_val_grows(digits, i + 1 - start);
                    assert(digits_val(digits) >= mag * 10 + d);
                }
            }
            return None;
        }
        proof {
            assert(mag * 10 + d <= limit) by {
                assert(mag <= limit / 10);
                if mag == limit / 10 {
                    assert(d <= limit % 10);
                } else {
                    assert(mag + 1 <= limit / 10);
                    assert(mag * 10 + 10 <= (limit / 10) * 10);
                }
            };
        }
        mag = mag * 10 + d;
        i += 1;
    }
    proof {
        assert(s@.subrange(start as int, n as int) =~= digits);
        assert(digits.len() > 0);
        assert(all_digits(digits));
        assert(mag == digits_val(digits));
    }
    if neg {
        if mag == 9223372036854775808 {
            Some(i64::MIN)
        } else {
            Some(-(mag as i64))
        }
    } else {
        Some(mag as i64)
    }
}

/// Case-blind equality of one character against a lower-case letter.
pub open spec fn char_ci_eq(c: char, l: char) -> bool {
    c == l || c as int == l as int - 32
}

/// One of the words a float accepts besides a number: `inf`, `infinity`
/// or `nan`, in any letter case.
pub open spec fn special_float(b: Seq<char>) -> bool {
    ||| (b.len() == 3 && char_ci_eq(b[0], 'i') && char_ci_eq(b[1], 'n') && char_ci_eq(b[2], 'f'))
    ||| (b.len() == 8 && char_ci_eq(b[0], 'i') && char_ci_eq(b[1], 'n') && char_ci_eq(b[2], 'f')
        && char_ci_eq(b[3], 'i') && char_ci_eq(b[4], 'n') && char_ci_eq(b[5], 'i') && char_ci_eq(
        b[6],
        't',
    ) && char_ci_eq(b[7], 'y'))
    ||| (b.len() == 3 && char_ci_eq(b[0], 'n') && char_ci_eq(b[1], 'a') && char_ci_eq(b[2], 'n'))
}

/// The digits of a float's mantissa: plain digits, or digits around one
/// point, with at least one digit in all.
pub open spec fn mantissa_ok(m: Seq<char>) -> bool {
    let p = char_pos(m, '.', 0);
    if p >= m.len() {
        m.len() > 0 && all_digits(m)
    } else {
        all_digits(m.subrange(0, p)) && all_digits(m.subrange(p + 1, m.len() as int)) && m.len()
            > 1
    }
}

/// A float's exponent: an optional sign, then at least one digit.
pub open spec fn exp_ok(e: Seq<char>) -> bool {
    let b = if e.len() > 0 && (e[0] == '+' || e[0] == '-') {
        e.drop_first()
    } else {
        e
    };
    b.len() > 0 && all_digits(b)
}

/// A float's number form: a mantissa, optionally followed by `e` or `E`
/// and an exponent.
pub open spec fn number_ok(b: Seq<char>) -> bool {
    let p1 = char_pos(b, 'e', 0);
    let p2 = char_pos(b, 'E', 0);
    let pe = if p1 <= p2 {
        p1
    } else {
        p2
    };
    if pe >= b.len() {
        mantissa_ok(b)
    } else {
        mantissa_ok(b.subrange(0, pe)) && exp_ok(b.subrange(pe + 1, b.len() as int))
    }
}

/// Whether the text is a full float literal: an optional sign, then a
/// number or one of the special words.
pub open spec fn float_literal_ok(s: Seq<char>) -> bool {
    let b = if s.len() > 0 && (s[0] == '+' || s[0] == '-') {
        s.drop_first()
    } else {
        s
    };
    special_float(b) || number_ok(b)
}

/// Whether every character of `s` in `[from, to)` is a decimal digit.
#[verifier::loop_isolation(false)]
fn all_digits_range(s: &str, from: usize, to: usize) -> (r: bool)
    requires
        from <= to <= s@.len(),
    ensures
        r == all_digits(s@.subrange(from as int, to as int)),
{
    let ghost sub = s@.subrange(from as int, to as int);
    let mut i: usize = from;
    while i < to
        invariant
            from <= i <= to,
            forall|k: int| 0 <= k < i - from ==> is_digit(sub[k]),
        decreases to - i,
    {
        let c = s.get_char(i);
        if !(c >= '0' && c <= '9') {
            proof {
                assert(sub[i - from] == s@[i as int]);
            }
            return false;
        }
        proof {
            assert(sub[i - from] == s@[i as int]);
        }
        i += 1;
    }
    true
}

/// Case-blind comparison of one character against a lower-case letter.
fn ci_eq(c: char, l: char) -> (r: bool)
    requires
        'a' <= l && l <= 'z',
    ensures
        r == char_ci_eq(c, l),
{
    let up = ((l as u32) - 32) as u32;
    c == l || c as u32 == up
}

/// Whether `b` is one of the special float words.
fn check_special(b: &str) -> (r: bool)
    ensures
        r == special_float(b@),
{
    let n = b.unicode_len();
    if n == 3 {
        let c0 = b.get_char(0);
        let c1 = b.get_char(1);
        let c2 = b.get_char(2);
        (ci_eq(c0, 'i') && ci_eq(c1, 'n') && ci_eq(c2, 'f')) || (ci_eq(c0, 'n') && ci_eq(c1, 'a')
            && ci_eq(c2, 'n'))
    } else if n == 8 {
        ci_eq(b.get_char(0), 'i') && ci_eq(b.get_char(1), 'n') && ci_eq(b.get_char(2), 'f')
            && ci_eq(b.get_char(3), 'i') && ci_eq(b.get_char(4), 'n') && ci_eq(b.get_char(5), 'i')
            && ci_eq(b.get_char(6), 't') && ci_eq(b.get_char(7), 'y')
    } else {
        false
    }
}

/// Whether `m` is a valid float mantissa.
fn check_mantissa(m: &str) -> (r: bool)
    ensures
        r == mantissa_ok(m@),
{
    let n = m.unicode_len();
    let p = find_char(m, '.');
    proof {
        assert(m@.subrange(0, m@.len() as int) =~= m@);
    }
    if p == n {
        n > 0 && all_digits_range(m, 0, n)
    } else {
        all_digits_range(m, 0, p) && all_digits_range(m, p + 1, n) && n > 1
    }
}

/// Whether `e` is a valid float exponent.
fn check_exp(e: &str) -> (r: bool)
    ensures
        r == exp_ok(e@),
{
    let n = e.unicode_len();
    let mut start: usize = 0;
    if n > 0 {
        let c0 = e.get_char(0);
        if c0 == '+' || c0 == '-' {
            start = 1;
        }
    }
    proof {
        if start == 1 {
            assert(e@.drop_first() =~= e@.subrange(1, n as int));
        } else {
            assert(e@ =~= e@.subrange(0, n as int));
        }
    }
    start < n && all_digits_range(e, start, n)
}

/// Whether the text is a full float literal.
pub fn check_float(s: &str) -> (r: bool)
    ensures
        r == float_literal_ok(s@),
{
    let n = s.unicode_len();
    let mut start: usize = 0;
    if n > 0 {
        let c0 = s.get_char(0);
        if c0 == '+' || c0 == '-' {
            start = 1;
        }
    }
    let body = s.substring_char(start, n);
    proof {
        if start == 1 {
            assert(s@.drop_first() =~= body@);
        } else {
            assert(s@ =~= body@);
        }
    }
    if check_special(body) {
        return true;
    }
    let m = body.unicode_len();
    let p1 = find_char(body, 'e');
    let p2 = find_char(body, 'E');
    let pe = if p1 <= p2 {
        p1
    } else {
        p2
    };
    if pe < m {
        check_mantissa(body.substring_char(0, pe)) && check_exp(
            body.substring_char(pe + 1, m),
        )
    } else {
        proof {
            assert(body@.subrange(0, body@.len() as int) =~= body@);
        }
        check_mantissa(body)
    }
}

/// `s` with whitespace trimmed from both ends.
#[verifier::loop_isolation(false)]
pub fn trim_ws(s: &str) -> (r: &str)
    ensures
        r@ == ws_trimmed(s@),
{
    let n = s.unicode_len();
    let mut a: usize = 0;
    while a < n && is_ws_char(s.get_char(a))
        invariant
            0 <= a <= n,
            forall|k: int| 0 <= k < a ==> is_ws(s@[k]),
        decreases n - a,
    {
        a += 1;
    }
    let mut b: usize = n;
    while b > a && is_ws_char(s.get_char(b - 1))
        invariant
            a <= b <= n,
            forall|k: int| b <= k < n ==> is_ws(s@[k]),
        decreases b,
    {
        b -= 1;
    }
    proof {
        let ws = |c: char| is_ws(c);
        lemma_strip_front(s@, ws, a as int);
        let fr = s@.subrange(a as int, n as int);
        assert forall|k: int| (b - a) <= k < fr.len() implies ws(fr[k]) by {
            assert(fr[k] == s@[k + a]);
        }
        if b > a {
            assert(fr[b - a - 1] == s@[b - 1]);
        }
        lemma_strip_back(fr, ws, b - a);
        assert(fr.subrange(0, b - a) =~= s@.subrange(a as int, b as int));
    }
    s.substring_char(a, b)
}

/// Whether a character is whitespace, as [`is_ws`] says.
fn is_ws_char(c: char) -> (r: bool)
    ensures
        r == is_ws(c),
{
    c == ' ' || c == '\t' || c == '\r' || c == '\n'
}

} // verus!
