//! The record type: one player's statistic line. Equality spans all four
//! fields; ordering looks at the run count alone, so two records that differ
//! only in name or average compare as equal in order.

use vstd::prelude::*;
use core::cmp::Ordering;

verus! {

/// One parsed statistic line.
///
/// The average is rounded to the nearest integer when the line is parsed and
/// stored as that integer, so comparing averages for equality is exact: the
/// tolerance a comparison of two freshly rounded floating-point values would
/// need is absorbed by the rounding itself.
#[derive(Debug)]
pub struct Record {
    pub initials: String,
    pub surname: String,
    pub runs: u32,
    pub average: i32,
}

/// The mathematical value of a record: its text fields as character
/// sequences, its numbers as themselves.
pub struct RecordView {
    pub initials: Seq<char>,
    pub surname: Seq<char>,
    pub runs: u32,
    pub average: i32,
}

impl View for Record {
    type V = RecordView;

    open spec fn view(&self) -> RecordView {
        RecordView {
            initials: self.initials@,
            surname: self.surname@,
            runs: self.runs,
            average: self.average,
        }
    }
}

impl DeepView for Record {
    type V = RecordView;

    open spec fn deep_view(&self) -> RecordView {
        self.view()
    }
}

impl Clone for Record {
    fn clone(&self) -> (r: Record)
        ensures
            r@ == self@,
    {
        Record {
            initials: self.initials.clone(),
            surname: self.surname.clone(),
            runs: self.runs,
            average: self.average,
        }
    }
}

impl PartialEq for Record {
    /// Records are equal when every field matches; the averages are integral
    /// by construction, so an exact comparison is the right one.
    fn eq(&self, other: &Record) -> (r: bool)
        ensures
            r == (self@ == other@),
    {
        let r = self.initials.eq(&other.initials) && self.surname.eq(&other.surname) && self.runs
            == other.runs && self.average == other.average;
        proof {
            if r {
                assert(self@ =~= other@);
            }
        }
        r
    }
}

impl vstd::std_specs::cmp::PartialEqSpecImpl for Record {
    open spec fn obeys_eq_spec() -> bool {
        true
    }

    open spec fn eq_spec(&self, other: &Record) -> bool {
        self@ == other@
    }
}

impl Eq for Record {

}

/// The ordering key of a record: where it stands relative to another,
/// looking at the run counts alone.
pub open spec fn runs_ordering(a: RecordView, b: RecordView) -> Ordering {
    if a.runs < b.runs {
        Ordering::Less
    } else if a.runs == b.runs {
        Ordering::Equal
    } else {
        Ordering::Greater
    }
}

impl PartialOrd for Record {
    /// Records are ordered solely by `runs`; names and averages play no role.
    fn partial_cmp(&self, other: &Record) -> (r: Option<Ordering>)
        ensures
            r == Some(runs_ordering(self@, other@)),
    {
        if self.runs < other.runs {
            Some(Ordering::Less)
        } else if self.runs == other.runs {
            Some(Ordering::Equal)
        } else {
            Some(Ordering::Greater)
        }
    }
}

impl vstd::std_specs::cmp::PartialOrdSpecImpl for Record {
    open spec fn obeys_partial_cmp_spec() -> bool {
        true
    }

    open spec fn partial_cmp_spec(&self, other: &Record) -> Option<Ordering> {
        Some(runs_ordering(self@, other@))
    }
}

/// The filter's fixed letter.
pub open spec fn filter_letter() -> char {
    'C'
}

/// Whether the record survives the filter: its surname's first character is
/// the fixed letter. A record with an empty surname has no first character
/// and never matches.
pub open spec fn matches_filter(r: RecordView) -> bool {
    r.surname.len() > 0 && r.surname[0] == filter_letter()
}

impl Record {
    /// Whether this record's surname starts with the filter's fixed letter.
    pub fn passes_filter(&self) -> (b: bool)
        ensures
            b == matches_filter(self@),
    {
        if self.surname.as_str().unicode_len() == 0 {
            false
        } else {
            self.surname.as_str().get_char(0) == 'C'
        }
    }
}

} // verus!
