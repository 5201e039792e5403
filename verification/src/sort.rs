//! The stable descending sorter. The specification-level insertion sort
//! `sort_desc` pins the output down completely; the executable `sorted`
//! returns exactly that sequence and leaves its input untouched. Stability
//! is stated the standard way: for every run count, the subsequence of
//! records carrying it is unchanged.

use vstd::prelude::*;
use crate::record::Record;
use crate::record::RecordView;

verus! {

/// Run counts never increase along the sequence.
pub open spec fn sorted_desc(s: Seq<RecordView>) -> bool {
    forall|i: int, j: int| 0 <= i < j < s.len() ==> s[i].runs >= s[j].runs
}

/// The predicate "carries run count `k`", shared by every stability statement.
pub open spec fn runs_is(k: u32) -> spec_fn(RecordView) -> bool {
    |r: RecordView| r.runs == k
}

/// Where a stable descending insertion puts `r` into `s`: after every
/// element with strictly more runs, before everything else, so that among
/// equal run counts the newcomer, which came earlier in the input, leads.
pub open spec fn insert_desc(r: RecordView, s: Seq<RecordView>) -> Seq<RecordView>
    decreases s.len(),
{
    if s.len() == 0 {
        seq![r]
    } else if s[0].runs > r.runs {
        seq![s[0]] + insert_desc(r, s.drop_first())
    } else {
        seq![r] + s
    }
}

/// Stable descending insertion sort: the head inserted into the sorted tail.
pub open spec fn sort_desc(s: Seq<RecordView>) -> Seq<RecordView>
    decreases s.len(),
{
    if s.len() == 0 {
        Seq::empty()
    } else {
        insert_desc(s[0], sort_desc(s.drop_first()))
    }
}

proof fn lemma_filter_singleton(x: RecordView, p: spec_fn(RecordView) -> bool)
    ensures
        seq![x].filter(p) == if p(x) {
            seq![x]
        } else {
            Seq::<RecordView>::empty()
        },
{
    broadcast use Seq::lemma_filter_push;

    assert(seq![x] =~= Seq::<RecordView>::empty().push(x));
    assert(Seq::<RecordView>::empty().filter(p) == Seq::<RecordView>::empty());
}

proof fn lemma_insert_desc_len(r: RecordView, s: Seq<RecordView>)
    ensures
        insert_desc(r, s).len() == s.len() + 1,
    decreases s.len(),
{
    if s.len() > 0 && s[0].runs > r.runs {
        lemma_insert_desc_len(r, s.drop_first());
    }
}

/// Every element of the insertion result is the inserted record or one of `s`.
proof fn lemma_insert_desc_elems(r: RecordView, s: Seq<RecordView>)
    ensures
        forall|i: int|
            0 <= i < insert_desc(r, s).len() ==> insert_desc(r, s)[i] == r || s.contains(
                insert_desc(r, s)[i],
            ),
    decreases s.len(),
{
    if s.len() > 0 && s[0].runs > r.runs {
        lemma_insert_desc_elems(r, s.drop_first());
        assert forall|i: int| 0 <= i < insert_desc(r, s).len() implies insert_desc(r, s)[i] == r
            || s.contains(insert_desc(r, s)[i]) by {
            if i > 0 {
                let e = insert_desc(r, s)[i];
                assert(e == insert_desc(r, s.drop_first())[i - 1]);
                if e != r {
                    let j = choose|j: int|
                        0 <= j < s.drop_first().len() && s.drop_first()[j] == e;
                    assert(s[j + 1] == e);
                }
            }
        }
    }
}

proof fn lemma_insert_desc_sorted(r: RecordView, s: Seq<RecordView>)
    requires
        sorted_desc(s),
    ensures
        sorted_desc(insert_desc(r, s)),
    decreases s.len(),
{
    lemma_insert_desc_len(r, s);
    if s.len() > 0 && s[0].runs > r.runs {
        let d = s.drop_first();
        assert(sorted_desc(d));
        lemma_insert_desc_sorted(r, d);
        lemma_insert_desc_len(r, d);
        lemma_insert_desc_elems(r, d);
        let out = insert_desc(r, s);
        assert forall|i: int, j: int| 0 <= i < j < out.len() implies out[i].runs >= out[j].runs by {
            if i > 0 {
                assert(out[i] == insert_desc(r, d)[i - 1]);
                assert(out[j] == insert_desc(r, d)[j - 1]);
            } else {
                let e = out[j];
                assert(e == insert_desc(r, d)[j - 1]);
                if e != r {
                    let m = choose|m: int| 0 <= m < d.len() && d[m] == e;
                    assert(s[m + 1] == e);
                }
            }
        }
    }
}

/// Inserting touches only records of the inserted run count: the subsequence
/// of any other count is unchanged, and the inserted record's own count gains
/// it at the front.
proof fn lemma_insert_desc_filter(r: RecordView, s: Seq<RecordView>, k: u32)
    ensures
        insert_desc(r, s).filter(runs_is(k)) == if runs_is(k)(r) {
            seq![r] + s.filter(runs_is(k))
        } else {
            s.filter(runs_is(k))
        },
    decreases s.len(),
{
    broadcast use Seq::filter_distributes_over_add;

    let p = runs_is(k);
    if s.len() == 0 {
        lemma_filter_singleton(r, p);
        assert(s.filter(p) == Seq::<RecordView>::empty());
        if p(r) {
            assert(seq![r] + s.filter(p) =~= seq![r]);
        }
    } else if s[0].runs > r.runs {
        let d = s.drop_first();
        lemma_insert_desc_filter(r, d, k);
        lemma_filter_singleton(s[0], p);
        assert(s =~= seq![s[0]] + d);
        assert(s.filter(p) == seq![s[0]].filter(p) + d.filter(p));
        assert(insert_desc(r, s).filter(p) == seq![s[0]].filter(p) + insert_desc(r, d).filter(p));
        if p(r) {
            assert(!p(s[0]));
            assert(seq![s[0]].filter(p) == Seq::<RecordView>::empty());
            assert(insert_desc(r, s).filter(p) =~= seq![r] + s.filter(p));
        }
    } else {
        lemma_filter_singleton(r, p);
        assert(insert_desc(r, s).filter(p) == seq![r].filter(p) + s.filter(p));
        if !p(r) {
            assert(insert_desc(r, s).filter(p) =~= s.filter(p));
        }
    }
}

pub proof fn lemma_sort_desc_len(s: Seq<RecordView>)
    ensures
        sort_desc(s).len() == s.len(),
    decreases s.len(),
{
    if s.len() > 0 {
        lemma_sort_desc_len(s.drop_first());
        lemma_insert_desc_len(s[0], sort_desc(s.drop_first()));
    }
}

/// The sorted sequence is descending in runs.
pub proof fn lemma_sort_desc_sorted(s: Seq<RecordView>)
    ensures
        sorted_desc(sort_desc(s)),
    decreases s.len(),
{
    if s.len() > 0 {
        lemma_sort_desc_sorted(s.drop_first());
        lemma_insert_desc_sorted(s[0], sort_desc(s.drop_first()));
    }
}

/// Stability: for every run count, sorting leaves the subsequence of records
/// with that count exactly as the input had it.
pub proof fn lemma_sort_desc_stable(s: Seq<RecordView>, k: u32)
    ensures
        sort_desc(s).filter(runs_is(k)) == s.filter(runs_is(k)),
    decreases s.len(),
{
    broadcast use Seq::filter_distributes_over_add;

    let p = runs_is(k);
    if s.len() > 0 {
        let d = s.drop_first();
        lemma_sort_desc_stable(d, k);
        lemma_insert_desc_filter(s[0], sort_desc(d), k);
        lemma_filter_singleton(s[0], p);
        assert(s =~= seq![s[0]] + d);
        assert(s.filter(p) == seq![s[0]].filter(p) + d.filter(p));
        if p(s[0]) {
            assert(seq![s[0]].filter(p) == seq![s[0]]);
            assert(seq![s[0]] + d.filter(p) =~= seq![s[0]].filter(p) + d.filter(p));
        }
    }
}

/// Sorting a sequence that is already descending gives it back unchanged.
pub proof fn lemma_sort_desc_of_sorted(s: Seq<RecordView>)
    requires
        sorted_desc(s),
    ensures
        sort_desc(s) == s,
    decreases s.len(),
{
    if s.len() == 0 {
        assert(sort_desc(s) =~= s);
    } else {
        let d = s.drop_first();
        assert(sorted_desc(d));
        lemma_sort_desc_of_sorted(d);
        if d.len() == 0 {
            assert(insert_desc(s[0], d) =~= s);
        } else {
            assert(d[0] == s[1]);
            assert(s[0].runs >= s[1].runs);
            assert(insert_desc(s[0], d) =~= s);
        }
    }
}

/// Sorting twice is the same as sorting once.
pub proof fn lemma_sort_desc_idempotent(s: Seq<RecordView>)
    ensures
        sort_desc(sort_desc(s)) == sort_desc(s),
{
    lemma_sort_desc_sorted(s);
    lemma_sort_desc_of_sorted(sort_desc(s));
}

/// The inserted record lands at the first position whose run count is not
/// strictly above its own.
proof fn lemma_insert_desc_at(r: RecordView, s: Seq<RecordView>, j: int)
    requires
        0 <= j <= s.len(),
        forall|m: int| 0 <= m < j ==> s[m].runs > r.runs,
        j < s.len() ==> s[j].runs <= r.runs,
    ensures
        insert_desc(r, s) == s.subrange(0, j).push(r) + s.subrange(j, s.len() as int),
    decreases j,
{
    if j == 0 {
        if s.len() == 0 {
            assert(insert_desc(r, s) =~= s.subrange(0, 0).push(r) + s.subrange(0, 0));
        } else {
            assert(insert_desc(r, s) =~= s.subrange(0, 0).push(r) + s.subrange(0, s.len() as int));
        }
    } else {
        let d = s.drop_first();
        assert(s[0].runs > r.runs);
        assert forall|m: int| 0 <= m < j - 1 implies d[m].runs > r.runs by {
            assert(d[m] == s[m + 1]);
        }
        lemma_insert_desc_at(r, d, j - 1);
        assert(insert_desc(r, s) == seq![s[0]] + (d.subrange(0, j - 1).push(r) + d.subrange(
            j - 1,
            d.len() as int,
        )));
        assert(insert_desc(r, s) =~= s.subrange(0, j).push(r) + s.subrange(j, s.len() as int));
    }
}

/// Inserts a record into a vector kept in descending run order, exactly as
/// `insert_desc` describes.
fn insert_record(v: &mut Vec<Record>, r: Record)
    ensures
        final(v).deep_view() == insert_desc(r@, old(v).deep_view()),
{
    let ghost s = v.deep_view();
    let n = v.len();
    let mut j: usize = 0;
    while j < n
        invariant
            0 <= j <= n,
            n == v.len(),
            v.deep_view() == s,
            forall|m: int| 0 <= m < j ==> s[m].runs > r@.runs,
        ensures
            0 <= j <= n,
            n == v.len(),
            v.deep_view() == s,
            forall|m: int| 0 <= m < j ==> s[m].runs > r@.runs,
            j < n ==> s[j as int].runs <= r@.runs,
        decreases n - j,
    {
        if v[j].runs <= r.runs {
            break;
        }
        proof {
            assert(s[j as int] == v@[j as int]@);
        }
        j = j + 1;
    }
    proof {
        lemma_insert_desc_at(r@, s, j as int);
    }
    v.insert(j, r);
    proof {
        assert(final(v).deep_view() =~= s.subrange(0, j as int).push(r@) + s.subrange(
            j as int,
            s.len() as int,
        ));
    }
}

/// Returns a new vector holding the same records ordered by descending run
/// count, equal run counts keeping their relative input order. The input
/// vector is only read, never changed.
pub fn sorted(x: &Vec<Record>) -> (r: Vec<Record>)
    ensures
        r.deep_view() == sort_desc(x.deep_view()),
        sorted_desc(r.deep_view()),
        r.deep_view().len() == x.deep_view().len(),
        forall|k: u32| #[trigger] r.deep_view().filter(runs_is(k)) == x.deep_view().filter(
            runs_is(k),
        ),
{
    let ghost d = x.deep_view();
    let mut out: Vec<Record> = Vec::new();
    let mut i: usize = x.len();
    proof {
        assert(d.skip(x@.len() as int) =~= Seq::<RecordView>::empty());
        assert(out.deep_view() =~= sort_desc(d.skip(i as int)));
    }
    while i > 0
        invariant
            0 <= i <= x@.len(),
            d == x.deep_view(),
            out.deep_view() == sort_desc(d.skip(i as int)),
        decreases i,
    {
        i = i - 1;
        let key = x[i].clone();
        proof {
            assert(key@ == d[i as int]);
        }
        insert_record(&mut out, key);
        proof {
            let t = d.skip(i as int);
            assert(t.len() > 0);
            assert(t[0] == d[i as int]);
            assert(t.drop_first() =~= d.skip(i as int + 1));
            assert(sort_desc(t) == insert_desc(d[i as int], sort_desc(d.skip(i as int + 1))));
        }
    }
    proof {
        assert(d.skip(0) =~= d);
        lemma_sort_desc_sorted(d);
        lemma_sort_desc_len(d);
        assert forall|k: u32| #[trigger] sort_desc(d).filter(runs_is(k)) == d.filter(
            runs_is(k),
        ) by {
            lemma_sort_desc_stable(d, k);
        }
    }
    out
}

} // verus!
