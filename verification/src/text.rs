//! Character-level scanning primitives: finding a delimiter, skipping runs of
//! a character, trimming surrounding whitespace. Each spec function has an
//! executable counterpart proved to compute exactly the same index or slice.

use vstd::prelude::*;

verus! {

/// The whitespace characters stripped from the ends of a field.
pub open spec fn is_space_char(c: char) -> bool {
    c == ' ' || c == '\t' || c == '\r' || c == '\n'
}

/// Index of the first occurrence of `c` in `s` at or after `from`,
/// or `s.len()` if there is none.
pub open spec fn find_char_from(s: Seq<char>, c: char, from: int) -> int
    recommends
        0 <= from <= s.len(),
    decreases s.len() - from,
{
    if from < 0 || from >= s.len() {
        s.len() as int
    } else if s[from] == c {
        from
    } else {
        find_char_from(s, c, from + 1)
    }
}

/// Index of the first character in `s` at or after `from` that is not `c`,
/// or `s.len()` if there is none.
pub open spec fn skip_char_from(s: Seq<char>, c: char, from: int) -> int
    recommends
        0 <= from <= s.len(),
    decreases s.len() - from,
{
    if from < 0 || from >= s.len() {
        s.len() as int
    } else if s[from] == c {
        skip_char_from(s, c, from + 1)
    } else {
        from
    }
}

/// Index of the first non-whitespace character of `s`, or `s.len()`.
pub open spec fn trim_start_index(s: Seq<char>) -> int
    decreases s.len(),
{
    trim_start_from(s, 0)
}

pub open spec fn trim_start_from(s: Seq<char>, from: int) -> int
    recommends
        0 <= from <= s.len(),
    decreases s.len() - from,
{
    if from < 0 || from >= s.len() {
        s.len() as int
    } else if is_space_char(s[from]) {
        trim_start_from(s, from + 1)
    } else {
        from
    }
}

/// One past the last non-whitespace character of `s[..end]`, or `0` if
/// `s[..end]` is all whitespace.
pub open spec fn trim_end_index(s: Seq<char>, end: int) -> int
    recommends
        0 <= end <= s.len(),
    decreases end,
{
    if end <= 0 {
        0
    } else if is_space_char(s[end - 1]) {
        trim_end_index(s, end - 1)
    } else {
        end
    }
}

/// `s` with leading and trailing whitespace removed.
pub open spec fn trim_spec(s: Seq<char>) -> Seq<char> {
    let a = trim_start_index(s);
    if a == s.len() {
        Seq::empty()
    } else {
        s.subrange(a, trim_end_index(s, s.len() as int))
    }
}

proof fn lemma_trim_start_from_bounds(s: Seq<char>, from: int)
    requires
        0 <= from <= s.len(),
    ensures
        from <= trim_start_from(s, from) <= s.len(),
    decreases s.len() - from,
{
    if from < s.len() && is_space_char(s[from]) {
        lemma_trim_start_from_bounds(s, from + 1);
    }
}

/// If some character at or after `a` is not whitespace, the right trim stops
/// at or after `a + 1`.
proof fn lemma_trim_end_index_past_non_space(s: Seq<char>, end: int, a: int)
    requires
        0 <= a < end <= s.len(),
        !is_space_char(s[a]),
    ensures
        a < trim_end_index(s, end) <= end,
    decreases end,
{
    if is_space_char(s[end - 1]) {
        lemma_trim_end_index_past_non_space(s, end - 1, a);
    }
}

/// The trimmed slice is empty exactly when `s` is all whitespace; otherwise
/// it starts and ends with a non-whitespace character.
proof fn lemma_trim_spec_bounds(s: Seq<char>)
    ensures
        trim_start_index(s) < s.len() ==> trim_start_index(s) < trim_end_index(
            s,
            s.len() as int,
        ) <= s.len(),
        trim_start_index(s) == s.len() ==> trim_spec(s) == Seq::<char>::empty(),
{
    lemma_trim_start_from_bounds(s, 0);
    let a = trim_start_index(s);
    if a < s.len() {
        lemma_trim_start_not_space(s, 0);
        lemma_trim_end_index_past_non_space(s, s.len() as int, a);
    }
}

/// The character at the index returned by the left trim is not whitespace
/// (when that index is in range).
proof fn lemma_trim_start_not_space(s: Seq<char>, from: int)
    requires
        0 <= from <= s.len(),
        trim_start_from(s, from) < s.len(),
    ensures
        !is_space_char(s[trim_start_from(s, from)]),
    decreases s.len() - from,
{
    if from < s.len() && is_space_char(s[from]) {
        lemma_trim_start_not_space(s, from + 1);
    }
}

/// First occurrence of `c` in `s` at or after `from`, as an executable scan.
pub fn find_char(s: &str, c: char, from: usize) -> (r: usize)
    requires
        from <= s@.len(),
    ensures
        r == find_char_from(s@, c, from as int),
        from <= r <= s@.len(),
{
    let n = s.unicode_len();
    let mut i: usize = from;
    while i < n
        invariant
            from <= i <= n,
            n == s@.len(),
            find_char_from(s@, c, from as int) == find_char_from(s@, c, i as int),
        decreases n - i,
    {
        if s.get_char(i) == c {
            return i;
        }
        i = i + 1;
    }
    n
}

/// First index at or after `from` whose character is not `c`.
pub fn skip_char(s: &str, c: char, from: usize) -> (r: usize)
    requires
        from <= s@.len(),
    ensures
        r == skip_char_from(s@, c, from as int),
        from <= r <= s@.len(),
{
    let n = s.unicode_len();
    let mut i: usize = from;
    while i < n
        invariant
            from <= i <= n,
            n == s@.len(),
            skip_char_from(s@, c, from as int) == skip_char_from(s@, c, i as int),
        decreases n - i,
    {
        if s.get_char(i) != c {
            return i;
        }
        i = i + 1;
    }
    n
}

fn is_space(c: char) -> (b: bool)
    ensures
        b == is_space_char(c),
{
    c == ' ' || c == '\t' || c == '\r' || c == '\n'
}

/// `s` with surrounding whitespace removed, as an owned copy.
pub fn trim(s: &str) -> (r: String)
    ensures
        r@ == trim_spec(s@),
{
    let n = s.unicode_len();
    let mut a: usize = 0;
    while a < n
        invariant
            0 <= a <= n,
            n == s@.len(),
            trim_start_index(s@) == trim_start_from(s@, a as int),
        ensures
            0 <= a <= n,
            trim_start_index(s@) == trim_start_from(s@, a as int),
            a == n || !is_space_char(s@[a as int]),
        decreases n - a,
    {
        if !is_space(s.get_char(a)) {
            break;
        }
        a = a + 1;
    }
    proof {
        assert(trim_start_index(s@) == a as int);
    }
    if a == n {
        let r = "";
        proof {
            reveal_strlit("");
            assert(r@ =~= trim_spec(s@));
        }
        return r.to_owned();
    }
    let mut b: usize = n;
    while b > 0
        invariant
            0 <= b <= n,
            n == s@.len(),
            trim_end_index(s@, n as int) == trim_end_index(s@, b as int),
        ensures
            0 <= b <= n,
            trim_end_index(s@, n as int) == trim_end_index(s@, b as int),
            b == 0 || !is_space_char(s@[b as int - 1]),
        decreases b,
    {
        if !is_space(s.get_char(b - 1)) {
            break;
        }
        b = b - 1;
    }
    proof {
        assert(trim_end_index(s@, n as int) == b as int);
        lemma_trim_spec_bounds(s@);
        assert(a as int <= b as int);
    }
    s.substring_char(a, b).to_owned()
}

} // verus!
