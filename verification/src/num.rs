//! Numeric field parsing: an unsigned integer read from decimal digits, and
//! a plain decimal number rounded to the nearest integer (ties away from
//! zero, mirroring the usual rounding of a parsed statistic).

use vstd::prelude::*;
use crate::text::find_char_from;
use crate::text::find_char;

verus! {

pub open spec fn is_digit_char(c: char) -> bool {
    48 <= c as u32 <= 57
}

pub open spec fn digit_val(c: char) -> int {
    c as u32 - 48
}

pub open spec fn all_digits(s: Seq<char>) -> bool {
    forall|i: int| 0 <= i < s.len() ==> is_digit_char(s[i])
}

/// A well-formed unsigned integer literal: one or more decimal digits.
pub open spec fn is_digits(s: Seq<char>) -> bool {
    s.len() > 0 && all_digits(s)
}

/// The value denoted by a sequence of decimal digits, most significant first.
pub open spec fn digits_val(s: Seq<char>) -> int
    decreases s.len(),
{
    if s.len() == 0 {
        0
    } else {
        digits_val(s.drop_last()) * 10 + digit_val(s.last())
    }
}

pub proof fn lemma_digits_val_nonneg(s: Seq<char>)
    requires
        all_digits(s),
    ensures
        digits_val(s) >= 0,
    decreases s.len(),
{
    if s.len() > 0 {
        assert(all_digits(s.drop_last()));
        lemma_digits_val_nonneg(s.drop_last());
    }
}

/// A prefix of a digit string never denotes more than the whole string.
pub proof fn lemma_digits_val_prefix(s: Seq<char>, i: int)
    requires
        all_digits(s),
        0 <= i <= s.len(),
    ensures
        digits_val(s.subrange(0, i)) <= digits_val(s),
    decreases s.len(),
{
    if i == s.len() {
        assert(s.subrange(0, i) =~= s);
    } else {
        let dl = s.drop_last();
        assert(all_digits(dl));
        assert(s.subrange(0, i) =~= dl.subrange(0, i));
        lemma_digits_val_prefix(dl, i);
        lemma_digits_val_nonneg(dl);
    }
}

fn is_digit(c: char) -> (b: bool)
    ensures
        b == is_digit_char(c),
{
    let u = c as u32;
    48 <= u && u <= 57
}

fn digit_value(c: char) -> (d: u32)
    requires
        is_digit_char(c),
    ensures
        d == digit_val(c),
{
    c as u32 - 48
}

/// Whether every character of `s` in the index range `[from, to)` is a digit.
fn digits_in_range(s: &str, from: usize, to: usize) -> (b: bool)
    requires
        from <= to <= s@.len(),
    ensures
        b == all_digits(s@.subrange(from as int, to as int)),
{
    let ghost sub = s@.subrange(from as int, to as int);
    let mut i: usize = from;
    while i < to
        invariant
            from <= i <= to <= s@.len(),
            sub == s@.subrange(from as int, to as int),
            forall|k: int| 0 <= k < i - from ==> is_digit_char(sub[k]),
        decreases to - i,
    {
        if !is_digit(s.get_char(i)) {
            proof {
                assert(sub[i - from] == s@[i as int]);
            }
            return false;
        }
        i = i + 1;
    }
    proof {
        assert forall|k: int| 0 <= k < sub.len() implies is_digit_char(sub[k]) by {
            assert(sub[k] == s@[from + k]);
        }
    }
    true
}

/// Accumulates the value of the digits of `s` in `[from, to)`, reporting
/// `None` as soon as the value passes `bound`.
fn digits_value_up_to(s: &str, from: usize, to: usize, bound: u64) -> (r: Option<u64>)
    requires
        from <= to <= s@.len(),
        all_digits(s@.subrange(from as int, to as int)),
        bound <= 0x1_0000_0000u64,
    ensures
        match r {
            Some(v) => v == digits_val(s@.subrange(from as int, to as int)) && v <= bound,
            None => digits_val(s@.subrange(from as int, to as int)) > bound,
        },
{
    let ghost sub = s@.subrange(from as int, to as int);
    let mut acc: u64 = 0;
    let mut i: usize = from;
    while i < to
        invariant
            from <= i <= to <= s@.len(),
            sub == s@.subrange(from as int, to as int),
            all_digits(sub),
            bound <= 0x1_0000_0000u64,
            acc == digits_val(sub.subrange(0, i - from)),
            acc <= bound,
        decreases to - i,
    {
        let c = s.get_char(i);
        proof {
            assert(sub[i - from] == s@[i as int]);
        }
        let d = digit_value(c);
        let next: u64 = acc * 10 + d as u64;
        proof {
            assert(sub.subrange(0, i + 1 - from).drop_last() =~= sub.subrange(0, i - from));
            assert(sub.subrange(0, i + 1 - from).last() == sub[i - from]);
            assert(next == digits_val(sub.subrange(0, i + 1 - from)));
        }
        if next > bound {
            proof {
                lemma_digits_val_prefix(sub, i + 1 - from);
            }
            return None;
        }
        acc = next;
        i = i + 1;
    }
    proof {
        assert(sub.subrange(0, to - from) =~= sub);
    }
    Some(acc)
}

/// Reads an unsigned integer written as decimal digits, exactly when the
/// text is one or more digits and the value fits in a `u32`.
pub fn parse_u32(s: &str) -> (r: Option<u32>)
    ensures
        match r {
            Some(v) => is_digits(s@) && digits_val(s@) <= u32::MAX && v == digits_val(s@),
            None => !(is_digits(s@) && digits_val(s@) <= u32::MAX),
        },
{
    let n = s.unicode_len();
    if n == 0 {
        return None;
    }
    proof {
        assert(s@.subrange(0, n as int) =~= s@);
    }
    if !digits_in_range(s, 0, n) {
        return None;
    }
    match digits_value_up_to(s, 0, n, u32::MAX as u64) {
        Some(v) => Some(v as u32),
        None => None,
    }
}

/// Length taken by a leading sign, if any.
pub open spec fn sign_len(t: Seq<char>) -> int {
    if t.len() > 0 && (t[0] == '-' || t[0] == '+') {
        1
    } else {
        0
    }
}

pub open spec fn is_negative(t: Seq<char>) -> bool {
    t.len() > 0 && t[0] == '-'
}

/// Index of the decimal point, or `t.len()` if there is none.
pub open spec fn dot_index(t: Seq<char>) -> int {
    find_char_from(t, '.', sign_len(t))
}

/// The digits before the decimal point (empty for, e.g., `.5`).
pub open spec fn int_digits(t: Seq<char>) -> Seq<char> {
    t.subrange(sign_len(t), dot_index(t))
}

/// The digits after the decimal point (empty when there is no point).
pub open spec fn frac_digits(t: Seq<char>) -> Seq<char> {
    if dot_index(t) < t.len() {
        t.subrange(dot_index(t) + 1, t.len() as int)
    } else {
        Seq::empty()
    }
}

/// A well-formed plain decimal literal: an optional sign, digits with at most
/// one decimal point among them, and at least one digit in all.
pub open spec fn decimal_wf(t: Seq<char>) -> bool {
    &&& all_digits(int_digits(t))
    &&& all_digits(frac_digits(t))
    &&& int_digits(t).len() + frac_digits(t).len() > 0
}

/// Rounding to nearest, ties away from zero: the magnitude goes up exactly
/// when the first fractional digit is five or more.
pub open spec fn rounds_up(t: Seq<char>) -> bool {
    frac_digits(t).len() > 0 && digit_val(frac_digits(t)[0]) >= 5
}

pub open spec fn decimal_abs_rounded(t: Seq<char>) -> int {
    digits_val(int_digits(t)) + if rounds_up(t) {
        1int
    } else {
        0int
    }
}

/// The nearest integer to the value the decimal literal denotes.
pub open spec fn decimal_rounded(t: Seq<char>) -> int {
    if is_negative(t) {
        -decimal_abs_rounded(t)
    } else {
        decimal_abs_rounded(t)
    }
}

/// Reads a plain decimal number and rounds it to the nearest integer, ties
/// away from zero; succeeds exactly when the text is well formed and the
/// rounded value fits in an `i32`.
pub fn parse_decimal_rounded(s: &str) -> (r: Option<i32>)
    ensures
        match r {
            Some(v) => decimal_wf(s@) && i32::MIN <= decimal_rounded(s@) <= i32::MAX && v
                == decimal_rounded(s@),
            None => !(decimal_wf(s@) && i32::MIN <= decimal_rounded(s@) <= i32::MAX),
        },
{
    let n = s.unicode_len();
    let mut neg = false;
    let mut start: usize = 0;
    if n > 0 {
        let c0 = s.get_char(0);
        if c0 == '-' {
            neg = true;
            start = 1;
        } else if c0 == '+' {
            start = 1;
        }
    }
    proof {
        assert(start as int == sign_len(s@));
        assert(neg == is_negative(s@));
    }
    let dot = find_char(s, '.', start);
    proof {
        assert(dot as int == dot_index(s@));
    }
    if !digits_in_range(s, start, dot) {
        return None;
    }
    let frac_len: usize = if dot < n {
        if !digits_in_range(s, dot + 1, n) {
            return None;
        }
        n - (dot + 1)
    } else {
        0
    };
    proof {
        assert(frac_len as int == frac_digits(s@).len());
    }
    if dot == start && frac_len == 0 {
        return None;
    }
    let abs_base = match digits_value_up_to(s, start, dot, 0x8000_0000u64) {
        Some(v) => v,
        None => {
            proof {
                assert(decimal_abs_rounded(s@) > 0x8000_0000);
            }
            return None;
        },
    };
    let round_up = if frac_len > 0 {
        let c = s.get_char(dot + 1);
        proof {
            assert(frac_digits(s@)[0] == s@[dot + 1]);
        }
        digit_value(c) >= 5
    } else {
        false
    };
    proof {
        assert(round_up == rounds_up(s@));
    }
    let abs: u64 = abs_base + if round_up {
        1
    } else {
        0
    };
    proof {
        assert(abs == decimal_abs_rounded(s@));
    }
    if neg {
        if abs > 0x8000_0000u64 {
            return None;
        }
        Some((-(abs as i64)) as i32)
    } else {
        if abs > 0x7fff_ffffu64 {
            return None;
        }
        Some(abs as i32)
    }
}

} // verus!
