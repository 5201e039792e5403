//! The pipeline over whole inputs: split text into lines, parse every line,
//! keep the records that pass the surname filter, sort the survivors. Each
//! stage is pure; a parse failure on any line aborts the whole run with that
//! line's error.

use vstd::prelude::*;
use crate::parse::error_of;
use crate::parse::line_ok;
use crate::parse::parse_line;
use crate::parse::parsed_record;
use crate::parse::ParseError;
use crate::record::matches_filter;
use crate::record::Record;
use crate::record::RecordView;
use crate::sort::sort_desc;
use crate::sort::sorted;
use crate::text::find_char;
use crate::text::find_char_from;

verus! {

/// A line with its trailing carriage return, if any, removed.
pub open spec fn strip_cr(s: Seq<char>) -> Seq<char> {
    if s.len() > 0 && s.last() == '\r' {
        s.drop_last()
    } else {
        s
    }
}

/// The lines of `t` from position `pos` on: split at each newline, each line
/// stripped of a trailing carriage return; a final newline ends the last
/// line rather than opening an empty one.
pub open spec fn lines_of_from(t: Seq<char>, pos: int) -> Seq<Seq<char>>
    decreases t.len() - pos,
{
    if pos < 0 || pos >= t.len() {
        Seq::empty()
    } else {
        let j = find_char_from(t, '\n', pos);
        if pos <= j && j < t.len() {
            seq![strip_cr(t.subrange(pos, j))] + lines_of_from(t, j + 1)
        } else {
            seq![strip_cr(t.subrange(pos, t.len() as int))]
        }
    }
}

pub open spec fn lines_of(t: Seq<char>) -> Seq<Seq<char>> {
    lines_of_from(t, 0)
}

/// Splits the input text into lines, handling LF and CRLF endings alike.
pub fn split_lines(text: &str) -> (r: Vec<String>)
    ensures
        r.deep_view() == lines_of(text@),
{
    let ghost t = text@;
    let n = text.unicode_len();
    let mut out: Vec<String> = Vec::new();
    let mut pos: usize = 0;
    proof {
        assert(out.deep_view() + lines_of_from(t, 0) =~= lines_of(t));
    }
    while pos < n
        invariant
            0 <= pos <= n,
            n == t.len(),
            t == text@,
            lines_of(t) == out.deep_view() + lines_of_from(t, pos as int),
        decreases n - pos,
    {
        let j = find_char(text, '\n', pos);
        let end = if j > pos && text.get_char(j - 1) == '\r' {
            j - 1
        } else {
            j
        };
        proof {
            assert(t.subrange(pos as int, j as int).len() == j - pos);
            if j > pos {
                assert(t.subrange(pos as int, j as int).last() == t[j as int - 1]);
                assert(t.subrange(pos as int, j as int).drop_last() =~= t.subrange(
                    pos as int,
                    j as int - 1,
                ));
            }
            assert(t.subrange(pos as int, end as int) == strip_cr(t.subrange(pos as int, j as int)));
        }
        let line = text.substring_char(pos, end).to_owned();
        let ghost old_deep = out.deep_view();
        out.push(line);
        proof {
            assert(out.deep_view() =~= old_deep.push(strip_cr(t.subrange(pos as int, j as int))));
            assert(old_deep.push(strip_cr(t.subrange(pos as int, j as int))) =~= old_deep + seq![
                strip_cr(t.subrange(pos as int, j as int)),
            ]);
        }
        if j < n {
            proof {
                assert(lines_of_from(t, pos as int) == seq![strip_cr(t.subrange(pos as int, j as int))]
                    + lines_of_from(t, j as int + 1));
                assert(out.deep_view() + lines_of_from(t, j as int + 1) =~= (old_deep
                    + lines_of_from(t, pos as int)));
            }
            pos = j + 1;
        } else {
            proof {
                assert(t.subrange(pos as int, j as int) == t.subrange(pos as int, t.len() as int));
                assert(lines_of_from(t, pos as int) == seq![
                    strip_cr(t.subrange(pos as int, t.len() as int)),
                ]);
                assert(out.deep_view() + lines_of_from(t, n as int) =~= (old_deep + lines_of_from(
                    t,
                    pos as int,
                )));
            }
            pos = n;
        }
    }
    proof {
        assert(lines_of_from(t, pos as int) =~= Seq::<Seq<char>>::empty());
        assert(out.deep_view() + Seq::<Seq<char>>::empty() =~= out.deep_view());
    }
    out
}

/// Every line of the input parses.
pub open spec fn all_lines_ok(ls: Seq<Seq<char>>) -> bool {
    forall|i: int| 0 <= i < ls.len() ==> line_ok(ls[i])
}

/// The records the lines denote, in input order.
pub open spec fn parsed_records(ls: Seq<Seq<char>>) -> Seq<RecordView> {
    Seq::new(ls.len(), |i: int| parsed_record(ls[i]))
}

/// Index of the first line that does not parse, or `ls.len()` if all do.
pub open spec fn first_bad_from(ls: Seq<Seq<char>>, i: int) -> int
    decreases ls.len() - i,
{
    if i < 0 || i >= ls.len() {
        ls.len() as int
    } else if !line_ok(ls[i]) {
        i
    } else {
        first_bad_from(ls, i + 1)
    }
}

pub open spec fn first_bad(ls: Seq<Seq<char>>) -> int {
    first_bad_from(ls, 0)
}

/// Parses every line, in order; the first malformed line aborts the whole
/// batch with its error.
pub fn parse_lines(lines: &Vec<String>) -> (r: Result<Vec<Record>, ParseError>)
    ensures
        match r {
            Ok(v) => all_lines_ok(lines.deep_view()) && v.deep_view() == parsed_records(
                lines.deep_view(),
            ),
            Err(e) => {
                let ls = lines.deep_view();
                &&& first_bad(ls) < ls.len()
                &&& !line_ok(ls[first_bad(ls)])
                &&& e == error_of(ls[first_bad(ls)])
            },
        },
{
    let ghost ls = lines.deep_view();
    let n = lines.len();
    let mut out: Vec<Record> = Vec::new();
    let mut i: usize = 0;
    while i < n
        invariant
            0 <= i <= n,
            n == lines@.len(),
            ls == lines.deep_view(),
            forall|j: int| 0 <= j < i ==> line_ok(ls[j]),
            first_bad(ls) == first_bad_from(ls, i as int),
            out.deep_view() == parsed_records(ls).subrange(0, i as int),
        decreases n - i,
    {
        proof {
            assert(lines@[i as int]@ == ls[i as int]);
        }
        match parse_line(lines[i].as_str()) {
            Ok(rec) => {
                let ghost old_deep = out.deep_view();
                let ghost rv = rec@;
                out.push(rec);
                proof {
                    assert(out.deep_view() =~= old_deep.push(rv));
                    assert(old_deep.push(rv) =~= parsed_records(ls).subrange(0, i as int + 1));
                }
            },
            Err(e) => {
                proof {
                    assert(first_bad_from(ls, i as int) == i as int);
                }
                return Err(e);
            },
        }
        i = i + 1;
    }
    proof {
        assert(parsed_records(ls).subrange(0, n as int) =~= parsed_records(ls));
    }
    Ok(out)
}

/// The filter's predicate as a value, shared by every statement about it.
pub open spec fn filter_pred() -> spec_fn(RecordView) -> bool {
    |r: RecordView| matches_filter(r)
}

/// The records that survive the filter, in their input order.
pub open spec fn filtered(s: Seq<RecordView>) -> Seq<RecordView> {
    s.filter(filter_pred())
}

/// Keeps the records whose surname starts with the filter's fixed letter,
/// preserving their relative order. The input is only read, never changed.
pub fn filter_records(x: &Vec<Record>) -> (r: Vec<Record>)
    ensures
        r.deep_view() == filtered(x.deep_view()),
{
    broadcast use Seq::lemma_filter_push;

    let ghost d = x.deep_view();
    let n = x.len();
    let mut out: Vec<Record> = Vec::new();
    let mut i: usize = 0;
    proof {
        assert(d.subrange(0, 0) =~= Seq::<RecordView>::empty());
        assert(out.deep_view() =~= d.subrange(0, 0).filter(filter_pred()));
    }
    while i < n
        invariant
            0 <= i <= n,
            n == x@.len(),
            d == x.deep_view(),
            out.deep_view() == d.subrange(0, i as int).filter(filter_pred()),
        decreases n - i,
    {
        let ghost p = filter_pred();
        proof {
            assert(d.subrange(0, i as int + 1) =~= d.subrange(0, i as int).push(d[i as int]));
        }
        if x[i].passes_filter() {
            let ghost old_deep = out.deep_view();
            let kept = x[i].clone();
            out.push(kept);
            proof {
                assert(p(d[i as int]));
                d.subrange(0, i as int).lemma_filter_push(d[i as int], p);
                assert(out.deep_view() =~= old_deep.push(d[i as int]));
            }
        } else {
            proof {
                assert(!p(d[i as int]));
                d.subrange(0, i as int).lemma_filter_push(d[i as int], p);
            }
        }
        i = i + 1;
    }
    proof {
        assert(d.subrange(0, n as int) =~= d);
    }
    out
}

/// A sequence whose every element satisfies `p` filters to itself.
proof fn lemma_filter_all_kept(s: Seq<RecordView>, p: spec_fn(RecordView) -> bool)
    requires
        forall|i: int| 0 <= i < s.len() ==> p(s[i]),
    ensures
        s.filter(p) == s,
    decreases s.len(),
{
    broadcast use Seq::lemma_filter_push;

    if s.len() == 0 {
        assert(s.filter(p) =~= s);
    } else {
        let d = s.drop_last();
        lemma_filter_all_kept(d, p);
        assert(p(s.last()));
        assert(s =~= d.push(s.last()));
        assert(d.push(s.last()).filter(p) == d.filter(p).push(s.last()));
        assert(s.filter(p) =~= s);
    }
}

/// Filtering is idempotent: filtering an already-filtered sequence gives the
/// same sequence back unchanged.
pub proof fn lemma_filtered_idempotent(s: Seq<RecordView>)
    ensures
        filtered(filtered(s)) == filtered(s),
{
    broadcast use Seq::lemma_filter_pred;

    lemma_filter_all_kept(filtered(s), filter_pred());
}

/// The whole pipeline on one input text: split into lines, parse each, keep
/// the surnames on the fixed letter, sort by descending runs, stable. The
/// first malformed line aborts the run with its error.
pub fn run_pipeline(text: &str) -> (r: Result<Vec<Record>, ParseError>)
    ensures
        match r {
            Ok(v) => all_lines_ok(lines_of(text@)) && v.deep_view() == sort_desc(
                filtered(parsed_records(lines_of(text@))),
            ),
            Err(e) => {
                let ls = lines_of(text@);
                &&& first_bad(ls) < ls.len()
                &&& !line_ok(ls[first_bad(ls)])
                &&& e == error_of(ls[first_bad(ls)])
            },
        },
{
    let lines = split_lines(text);
    match parse_lines(&lines) {
        Ok(recs) => {
            let kept = filter_records(&recs);
            Ok(sorted(&kept))
        },
        Err(e) => Err(e),
    }
}

} // verus!
