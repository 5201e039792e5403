//! The line parser: one text line of the shape
//! `"<initials> <surname>,<runs>,<average>"` becomes one record, or a parse
//! error saying which part of the line was bad. Every field boundary is
//! described by a spec function, so the contract pins down the whole record
//! and the exact error for every input line.

use vstd::prelude::*;
use crate::num::decimal_rounded;
use crate::num::decimal_wf;
use crate::num::digits_val;
use crate::num::is_digits;
use crate::num::parse_decimal_rounded;
use crate::num::parse_u32;
use crate::record::Record;
use crate::record::RecordView;
use crate::text::find_char;
use crate::text::find_char_from;
use crate::text::skip_char;
use crate::text::skip_char_from;
use crate::text::trim;
use crate::text::trim_spec;

verus! {

/// Which part of a line failed to parse. Any failure is fatal to the run:
/// there is no skip-and-continue.
#[derive(Clone, Copy, Debug, PartialEq, Eq, Structural)]
pub enum ParseError {
    /// Fewer than three comma-separated fields, or fewer than two name tokens.
    Structure,
    /// The second field is not an unsigned integer that fits the run counter.
    Runs,
    /// The third field is not a decimal number whose rounding fits the
    /// average's integer range.
    Average,
}

/// Index of the first comma.
pub open spec fn comma1(t: Seq<char>) -> int {
    find_char_from(t, ',', 0)
}

/// Index of the second comma.
pub open spec fn comma2(t: Seq<char>) -> int {
    find_char_from(t, ',', comma1(t) + 1)
}

/// Index of the third comma, or the line's end if there is none; fields past
/// the third are ignored.
pub open spec fn comma3(t: Seq<char>) -> int {
    find_char_from(t, ',', comma2(t) + 1)
}

/// The line splits into at least three comma-separated fields.
pub open spec fn has_three_fields(t: Seq<char>) -> bool {
    comma1(t) < t.len() && comma2(t) < t.len()
}

/// The first field, trimmed: the player's name.
pub open spec fn name_text(t: Seq<char>) -> Seq<char> {
    trim_spec(t.subrange(0, comma1(t)))
}

/// Start of the first space-separated name token.
pub open spec fn tok1_start(n: Seq<char>) -> int {
    skip_char_from(n, ' ', 0)
}

pub open spec fn tok1_end(n: Seq<char>) -> int {
    find_char_from(n, ' ', tok1_start(n))
}

/// Start of the second name token; runs of spaces count as one separator, so
/// tokens are never empty.
pub open spec fn tok2_start(n: Seq<char>) -> int {
    skip_char_from(n, ' ', tok1_end(n))
}

pub open spec fn tok2_end(n: Seq<char>) -> int {
    find_char_from(n, ' ', tok2_start(n))
}

/// The name holds at least two tokens; any further tokens are ignored.
pub open spec fn has_two_tokens(n: Seq<char>) -> bool {
    tok1_start(n) < n.len() && tok2_start(n) < n.len()
}

/// The first name token: the player's initials.
pub open spec fn initials_of(t: Seq<char>) -> Seq<char> {
    name_text(t).subrange(tok1_start(name_text(t)), tok1_end(name_text(t)))
}

/// The second name token: the player's surname.
pub open spec fn surname_of(t: Seq<char>) -> Seq<char> {
    name_text(t).subrange(tok2_start(name_text(t)), tok2_end(name_text(t)))
}

/// The second field, trimmed: the run count's text.
pub open spec fn runs_text(t: Seq<char>) -> Seq<char> {
    trim_spec(t.subrange(comma1(t) + 1, comma2(t)))
}

/// The third field, trimmed: the average's text.
pub open spec fn avg_text(t: Seq<char>) -> Seq<char> {
    trim_spec(t.subrange(comma2(t) + 1, comma3(t)))
}

/// The line has the right shape: three comma fields and two name tokens.
pub open spec fn structure_ok(t: Seq<char>) -> bool {
    has_three_fields(t) && has_two_tokens(name_text(t))
}

/// The run field denotes an unsigned integer that fits a `u32`.
pub open spec fn runs_ok(t: Seq<char>) -> bool {
    is_digits(runs_text(t)) && digits_val(runs_text(t)) <= u32::MAX
}

/// The average field denotes a decimal number whose nearest integer fits an
/// `i32`.
pub open spec fn avg_ok(t: Seq<char>) -> bool {
    decimal_wf(avg_text(t)) && i32::MIN <= decimal_rounded(avg_text(t)) <= i32::MAX
}

/// The line parses into a record.
pub open spec fn line_ok(t: Seq<char>) -> bool {
    structure_ok(t) && runs_ok(t) && avg_ok(t)
}

/// The record a well-formed line denotes.
pub open spec fn parsed_record(t: Seq<char>) -> RecordView {
    RecordView {
        initials: initials_of(t),
        surname: surname_of(t),
        runs: digits_val(runs_text(t)) as u32,
        average: decimal_rounded(avg_text(t)) as i32,
    }
}

/// The error a malformed line draws: structure is checked first, then the
/// run count, then the average.
pub open spec fn error_of(t: Seq<char>) -> ParseError {
    if !structure_ok(t) {
        ParseError::Structure
    } else if !runs_ok(t) {
        ParseError::Runs
    } else {
        ParseError::Average
    }
}

/// Parses one line into a record, or reports which part was malformed.
pub fn parse_line(line: &str) -> (r: Result<Record, ParseError>)
    ensures
        match r {
            Ok(rec) => line_ok(line@) && rec@ == parsed_record(line@),
            Err(e) => !line_ok(line@) && e == error_of(line@),
        },
{
    let n = line.unicode_len();
    let c1 = find_char(line, ',', 0);
    if c1 == n {
        return Err(ParseError::Structure);
    }
    let c2 = find_char(line, ',', c1 + 1);
    if c2 == n {
        return Err(ParseError::Structure);
    }
    let c3 = find_char(line, ',', c2 + 1);

    let name = trim(line.substring_char(0, c1));
    let name_s = name.as_str();
    proof {
        assert(name_s@ == name_text(line@));
    }
    let nn = name_s.unicode_len();
    let a1 = skip_char(name_s, ' ', 0);
    if a1 == nn {
        return Err(ParseError::Structure);
    }
    let e1 = find_char(name_s, ' ', a1);
    let a2 = skip_char(name_s, ' ', e1);
    if a2 == nn {
        return Err(ParseError::Structure);
    }
    let e2 = find_char(name_s, ' ', a2);
    let initials = name_s.substring_char(a1, e1).to_owned();
    let surname = name_s.substring_char(a2, e2).to_owned();

    let runs_field = trim(line.substring_char(c1 + 1, c2));
    proof {
        assert(runs_field@ == runs_text(line@));
    }
    let runs = match parse_u32(runs_field.as_str()) {
        Some(v) => v,
        None => {
            return Err(ParseError::Runs);
        },
    };

    let avg_field = trim(line.substring_char(c2 + 1, c3));
    proof {
        assert(avg_field@ == avg_text(line@));
    }
    let average = match parse_decimal_rounded(avg_field.as_str()) {
        Some(v) => v,
        None => {
            return Err(ParseError::Average);
        },
    };

    let rec = Record { initials, surname, runs, average };
    proof {
        assert(rec@ == parsed_record(line@));
    }
    Ok(rec)
}

} // verus!
