use vstd::prelude::*;

use crate::GritError;
use crate::calendar::spec_is_weekend_day;
use crate::calendar::is_weekend_day;

verus! {

/// Configuration for the by-date analysis.
pub struct ByDateArgs {
    pub path: String,
    pub file: Option<String>,
    pub image: bool,
    pub ignore_weekends: bool,
    pub ignore_gap_fill: bool,
    pub html: bool,
    pub restrict_authors: Option<String>,
}

impl ByDateArgs {
    pub fn new(
        path: String,
        file: Option<String>,
        image: bool,
        ignore_weekends: bool,
        ignore_gap_fill: bool,
        html: bool,
        restrict_authors: Option<String>,
    ) -> (r: Self)
        ensures
            r.path == path,
            r.file == file,
            r.image == image,
            r.ignore_weekends == ignore_weekends,
            r.ignore_gap_fill == ignore_gap_fill,
            r.html == html,
            r.restrict_authors == restrict_authors,
    {
        Self { path, file, image, ignore_weekends, ignore_gap_fill, html, restrict_authors }
    }
}

/// One day's commit count.  The day is a day number of the calendar
/// epoch (see `crate::calendar`).
#[derive(Clone, Copy, Debug)]
pub struct DateBucket {
    pub day: i64,
    pub count: usize,
}

/// A day participates in the analysis unless weekends are excluded and
/// the day falls on one.
pub open spec fn bucket_included(day: int, ignore_weekends: bool) -> bool {
    !ignore_weekends || !spec_is_weekend_day(day)
}

/// How many times day `d` occurs in `days`.
pub open spec fn day_count(days: Seq<i64>, d: i64) -> nat {
    days.to_multiset().count(d)
}

/// Bucket days are strictly increasing.
pub open spec fn buckets_sorted(bs: Seq<DateBucket>) -> bool {
    forall|i: int, j: int| 0 <= i < j < bs.len() ==> bs[i].day < bs[j].day
}

/// Some bucket carries day `d`.
pub open spec fn has_day(bs: Seq<DateBucket>, d: i64) -> bool {
    exists|i: int| 0 <= i < bs.len() && bs[i].day == d
}

/// The full contract of calendar bucketing: `out` holds, in strictly
/// increasing day order, one bucket per observed (and, with gap filling,
/// per intermediate) day that survives weekend exclusion, counting the
/// occurrences of that day in `days`.
pub open spec fn bucketing_post(
    days: Seq<i64>,
    ignore_weekends: bool,
    fill_gaps: bool,
    out: Seq<DateBucket>,
) -> bool {
    &&& buckets_sorted(out)
    &&& forall|i: int|
        0 <= i < out.len() ==> bucket_included(#[trigger] out[i].day as int, ignore_weekends)
    &&& forall|i: int| 0 <= i < out.len() ==> (#[trigger] out[i].count) as nat == day_count(
        days,
        out[i].day,
    )
    &&& forall|d: i64|
        bucket_included(d as int, ignore_weekends) && day_count(days, d) > 0 ==> #[trigger] has_day(
            out,
            d,
        )
    &&& forall|i: int| 0 <= i < out.len() && (#[trigger] out[i].count) == 0 ==> fill_gaps
    &&& (out.len() > 0 ==> out[0].count > 0 && out[out.len() - 1].count > 0)
    &&& (fill_gaps ==> forall|d: i64|
        out.len() > 0 && out[0].day <= d <= out[out.len() - 1].day && bucket_included(
            d as int,
            ignore_weekends,
        ) ==> #[trigger] has_day(out, d))
    &&& ((exists|i: int|
        0 <= i < days.len() && bucket_included(#[trigger] days[i] as int, ignore_weekends))
        <==> out.len() > 0)
}

/// Collects the observed days into sorted buckets, one per distinct day
/// that survives weekend exclusion, counting occurrences.
fn count_days(days: &Vec<i64>, ignore_weekends: bool) -> (out: Vec<DateBucket>)
    requires
        forall|i: int| 0 <= i < days@.len() ==> 1 <= #[trigger] days@[i] <= 3652059,
    ensures
        bucketing_post(days@, ignore_weekends, false, out@),
        forall|i: int| 0 <= i < out@.len() ==> 1 <= #[trigger] out@[i].day <= 3652059,
{
    let mut out: Vec<DateBucket> = Vec::new();
    let n = days.len();
    let mut i: usize = 0;
    proof {
        broadcast use vstd::seq_lib::group_to_multiset_ensures;
        broadcast use vstd::multiset::group_multiset_axioms;

        assert(days@.take(0).len() == 0);
    }
    while i < n
        invariant
            n == days@.len(),
            i <= n,
            forall|k: int| 0 <= k < days@.len() ==> 1 <= #[trigger] days@[k] <= 3652059,
            buckets_sorted(out@),
            forall|k: int| 0 <= k < out@.len() ==> 1 <= #[trigger] out@[k].day <= 3652059,
            forall|k: int|
                0 <= k < out@.len() ==> bucket_included(
                    #[trigger] out@[k].day as int,
                    ignore_weekends,
                ),
            forall|k: int|
                0 <= k < out@.len() ==> (#[trigger] out@[k].count) as nat == day_count(
                    days@.take(i as int),
                    out@[k].day,
                ) && out@[k].count >= 1,
            forall|d: i64|
                bucket_included(d as int, ignore_weekends) && days@.take(i as int).contains(d)
                    ==> #[trigger] has_day(out@, d),
        decreases n - i,
    {
        let day = days[i];
        proof {
            broadcast use vstd::seq_lib::group_to_multiset_ensures;
            broadcast use vstd::multiset::group_multiset_axioms;

            assert(days@.take(i as int + 1) =~= days@.take(i as int).push(days@[i as int]));
            assert(forall|d: i64|
                days@.take(i as int + 1).contains(d) <==> days@.take(i as int).contains(d) || d
                    == days@[i as int]) by {
                assert forall|d: i64| #[trigger]
                    days@.take(i as int + 1).contains(d) implies days@.take(i as int).contains(d)
                    || d == days@[i as int] by {
                    let t = choose|t: int|
                        0 <= t < days@.take(i as int + 1).len() && #[trigger] days@.take(
                            i as int + 1,
                        )[t] == d;
                    if t < i {
                        assert(days@.take(i as int)[t] == d);
                    }
                }
                assert forall|d: i64|
                    days@.take(i as int).contains(d) implies #[trigger] days@.take(
                    i as int + 1,
                ).contains(d) by {
                    let t = choose|t: int|
                        0 <= t < days@.take(i as int).len() && days@.take(i as int)[t] == d;
                    assert(days@.take(i as int + 1)[t] == d);
                }
                assert(days@.take(i as int + 1)[i as int] == days@[i as int]);
            }
        }
        let included = if ignore_weekends {
            !is_weekend_day(day)
        } else {
            true
        };
        if included {
            let mut k: usize = 0;
            while k < out.len() && out[k].day < day
                invariant
                    k <= out@.len(),
                    buckets_sorted(out@),
                    forall|t: int| 0 <= t < k ==> #[trigger] out@[t].day < day,
                decreases out@.len() - k,
            {
                k += 1;
            }
            if k < out.len() && out[k].day == day {
                let ghost old_out = out@;
                let c = out[k].count;
                proof {
                    broadcast use vstd::seq_lib::group_to_multiset_ensures;
                    broadcast use vstd::multiset::group_multiset_axioms;

                    assert(c as nat == day_count(days@.take(i as int), day));
                    assert(days@.take(i as int).to_multiset().count(day) <= days@.take(
                        i as int,
                    ).to_multiset().len());
                    assert(c < usize::MAX);
                }
                out[k] = DateBucket { day, count: c + 1 };
                proof {
                    broadcast use vstd::seq_lib::group_to_multiset_ensures;
                    broadcast use vstd::multiset::group_multiset_axioms;

                    assert(out@ =~= old_out.update(k as int, DateBucket { day, count: (c + 1) as usize }));
                    assert forall|d: i64| has_day(old_out, d) implies #[trigger] has_day(
                        out@,
                        d,
                    ) by {
                        let t = choose|t: int| 0 <= t < old_out.len() && old_out[t].day == d;
                        assert(out@[t].day == old_out[t].day);
                    }
                    assert(has_day(out@, day)) by {
                        assert(out@[k as int].day == day);
                    }
                }
            } else {
                let ghost old_out = out@;
                proof {
                    if k < old_out.len() {
                        assert(old_out[k as int].day > day);
                    }
                }
                out.insert(k, DateBucket { day, count: 1 });
                proof {
                    broadcast use vstd::seq_lib::group_to_multiset_ensures;
                    broadcast use vstd::multiset::group_multiset_axioms;

                    assert(out@ =~= old_out.insert(k as int, DateBucket { day, count: 1 }));
                    assert(forall|t: int| 0 <= t < k ==> #[trigger] out@[t] == old_out[t]);
                    assert(out@[k as int] == DateBucket { day, count: 1 });
                    assert(forall|t: int|
                        k < t < out@.len() ==> #[trigger] out@[t] == old_out[t - 1]);
                    assert(buckets_sorted(out@)) by {
                        assert forall|a: int, b: int|
                            0 <= a < b < out@.len() implies out@[a].day < out@[b].day by {
                            if a < k && b == k {
                                assert(old_out[a].day < day);
                            } else if a == k && b > k {
                                assert(old_out[b - 1].day >= old_out[k as int].day);
                            }
                        }
                    }
                    assert(day_count(days@.take(i as int), day) == 0) by {
                        if days@.take(i as int).contains(day) {
                            assert(has_day(old_out, day));
                            let t = choose|t: int|
                                0 <= t < old_out.len() && old_out[t].day == day;
                            if t < k {
                                assert(old_out[t].day < day);
                            } else {
                                assert(old_out[k as int].day <= old_out[t].day);
                            }
                        }
                        assert(!days@.take(i as int).contains(day));
                    }
                    assert forall|d: i64| has_day(old_out, d) implies #[trigger] has_day(
                        out@,
                        d,
                    ) by {
                        let t = choose|t: int| 0 <= t < old_out.len() && old_out[t].day == d;
                        if t < k {
                            assert(out@[t] == old_out[t]);
                        } else {
                            assert(out@[t + 1] == old_out[t]);
                        }
                    }
                    assert(has_day(out@, day)) by {
                        assert(out@[k as int].day == day);
                    }
                }
            }
        } else {
            proof {
                broadcast use vstd::seq_lib::group_to_multiset_ensures;
                broadcast use vstd::multiset::group_multiset_axioms;

                assert(forall|k: int|
                    0 <= k < out@.len() ==> #[trigger] out@[k].day != days@[i as int]);
            }
        }
        i += 1;
    }
    proof {
        broadcast use vstd::seq_lib::group_to_multiset_ensures;
        broadcast use vstd::multiset::group_multiset_axioms;

        assert(days@.take(n as int) =~= days@);
        assert forall|d: i64|
            bucket_included(d as int, ignore_weekends) && day_count(days@, d) > 0 implies #[trigger]
        has_day(out@, d) by {
            assert(days@.contains(d));
        }
        if exists|i2: int|
            0 <= i2 < days@.len() && bucket_included(#[trigger] days@[i2] as int, ignore_weekends) {
            let i2 = choose|i2: int|
                0 <= i2 < days@.len() && bucket_included(#[trigger] days@[i2] as int, ignore_weekends);
            assert(days@.contains(days@[i2]));
            assert(has_day(out@, days@[i2]));
        }
        if out@.len() > 0 {
            let d0 = out@[0].day;
            assert(out@[0].count as nat == day_count(days@.take(n as int), d0) && out@[0].count
                >= 1);
            assert(day_count(days@, d0) > 0);
            assert(days@.contains(d0));
            let t = choose|t: int| 0 <= t < days@.len() && days@[t] == d0;
            assert(bucket_included(days@[t] as int, ignore_weekends));
        }
    }
    out
}

/// Inserts a zero-count bucket for every absent (and non-excluded) day
/// strictly between the first and last observed days.
fn fill_gaps_internal(input: Vec<DateBucket>, ignore_weekends: bool) -> (out: Vec<DateBucket>)
    requires
        buckets_sorted(input@),
        forall|i: int| 0 <= i < input@.len() ==> 1 <= #[trigger] input@[i].day <= 3652059,
        forall|i: int|
            0 <= i < input@.len() ==> bucket_included(
                #[trigger] input@[i].day as int,
                ignore_weekends,
            ),
    ensures
        buckets_sorted(out@),
        forall|i: int| 0 <= i < out@.len() ==> 1 <= #[trigger] out@[i].day <= 3652059,
        forall|i: int|
            0 <= i < out@.len() ==> bucket_included(#[trigger] out@[i].day as int, ignore_weekends),
        input@.len() == 0 ==> out@.len() == 0,
        input@.len() > 0 ==> out@.len() > 0 && out@[0] == input@[0] && out@[out@.len() - 1]
            == input@[input@.len() - 1],
        forall|i: int|
            0 <= i < out@.len() ==> (#[trigger] has_bucket(input@, out@[i]) || (out@[i].count == 0
                && !has_day(input@, out@[i].day))),
        forall|d: i64| has_day(input@, d) ==> #[trigger] has_day(out@, d),
        out@.len() > 0 ==> forall|d: i64|
            out@[0].day <= d <= out@[out@.len() - 1].day && bucket_included(
                d as int,
                ignore_weekends,
            ) ==> #[trigger] has_day(out@, d),
{
    if input.len() == 0 {
        return input;
    }
    let lo = input[0].day;
    let hi = input[input.len() - 1].day;
    let mut out: Vec<DateBucket> = Vec::new();
    let mut cur: i64 = lo;
    let mut j: usize = 0;
    while cur <= hi
        invariant
            input@.len() > 0,
            buckets_sorted(input@),
            forall|i: int| 0 <= i < input@.len() ==> 1 <= #[trigger] input@[i].day <= 3652059,
            forall|i: int|
                0 <= i < input@.len() ==> bucket_included(
                    #[trigger] input@[i].day as int,
                    ignore_weekends,
                ),
            lo == input@[0].day,
            hi == input@[input@.len() - 1].day,
            lo <= cur <= hi + 1,
            j <= input@.len(),
            forall|t: int| 0 <= t < j ==> #[trigger] input@[t].day < cur,
            j < input@.len() ==> input@[j as int].day >= cur,
            buckets_sorted(out@),
            forall|i: int| 0 <= i < out@.len() ==> lo <= #[trigger] out@[i].day < cur,
            forall|i: int|
                0 <= i < out@.len() ==> bucket_included(
                    #[trigger] out@[i].day as int,
                    ignore_weekends,
                ),
            forall|i: int|
                0 <= i < out@.len() ==> (#[trigger] has_bucket(input@, out@[i])
                    || (out@[i].count == 0 && !has_day(input@, out@[i].day))),
            forall|t: int| 0 <= t < j ==> #[trigger] has_day(out@, input@[t].day),
            forall|d: i64|
                lo <= d < cur && bucket_included(d as int, ignore_weekends) ==> #[trigger] has_day(
                    out@,
                    d,
                ),
            out@.len() > 0 ==> out@[0] == input@[0],
            cur > lo ==> out@.len() > 0,
        decreases hi + 1 - cur,
    {
        let included = if ignore_weekends {
            !is_weekend_day(cur)
        } else {
            true
        };
        if included {
            let ghost old_out = out@;
            if j < input.len() && input[j].day == cur {
                let b = input[j];
                out.push(b);
                j += 1;
                proof {
                    assert(has_bucket(input@, b)) by {
                        assert(input@[j as int - 1] == b);
                    }
                }
            } else {
                proof {
                    if has_day(input@, cur) {
                        let t = choose|t: int|
                            0 <= t < input@.len() && input@[t].day == cur;
                        if t < j {
                            assert(input@[t].day < cur);
                        } else {
                            assert(input@[j as int].day <= input@[t].day);
                        }
                    }
                }
                out.push(DateBucket { day: cur, count: 0 });
            }
            proof {
                assert(forall|t: int| 0 <= t < old_out.len() ==> #[trigger] out@[t] == old_out[t]);
                assert forall|d: i64| has_day(old_out, d) implies #[trigger] has_day(out@, d) by {
                    let t = choose|t: int| 0 <= t < old_out.len() && old_out[t].day == d;
                    assert(out@[t].day == d);
                }
                assert(has_day(out@, cur)) by {
                    assert(out@[out@.len() - 1].day == cur);
                }
                assert forall|t: int| 0 <= t < j implies #[trigger] has_day(
                    out@,
                    input@[t].day,
                ) by {
                    if input@[t].day < cur {
                        assert(has_day(old_out, input@[t].day));
                    }
                }
            }
        } else {
            proof {
                if j < input@.len() && input@[j as int].day == cur {
                    assert(bucket_included(cur as int, ignore_weekends));
                }
            }
        }
        cur += 1;
    }
    proof {
        assert(j == input@.len()) by {
            if j < input@.len() {
                assert(input@[j as int].day >= cur);
                assert(input@[j as int].day <= input@[input@.len() - 1].day);
            }
        }
        assert(has_day(out@, input@[input@.len() - 1].day));
        let t = choose|t: int|
            0 <= t < out@.len() && out@[t].day == input@[input@.len() - 1].day;
        assert(forall|i: int| 0 <= i < out@.len() ==> #[trigger] out@[i].day <= hi);
        assert(t == out@.len() - 1) by {
            if t < out@.len() - 1 {
                assert(out@[t].day < out@[out@.len() - 1].day);
            }
        }
        assert(out@[out@.len() - 1] == input@[input@.len() - 1]) by {
            let b = out@[out@.len() - 1];
            assert(has_bucket(input@, b) || (b.count == 0 && !has_day(input@, b.day)));
            assert(has_bucket(input@, b)) by {
                if !has_bucket(input@, b) {
                    assert(!has_day(input@, b.day));
                    assert(input@[input@.len() - 1].day == b.day);
                }
            }
            let s = choose|s: int| 0 <= s < input@.len() && input@[s] == b;
            assert(input@[s].day == input@[input@.len() - 1].day);
            if s < input@.len() - 1 {
                assert(input@[s].day < input@[input@.len() - 1].day);
            }
        }
    }
    out
}

/// Some bucket of `bs` equals `b` exactly.
pub open spec fn has_bucket(bs: Seq<DateBucket>, b: DateBucket) -> bool {
    exists|i: int| 0 <= i < bs.len() && bs[i] == b
}

/// Buckets the given day numbers: counts occurrences per day, drops
/// weekends when asked to, sorts ascending, and optionally fills the
/// gaps between the first and last observed days with zero counts.
pub fn bucket_commit_days(days: &Vec<i64>, ignore_weekends: bool, fill_gaps: bool) -> (out: Vec<
    DateBucket,
>)
    requires
        forall|i: int| 0 <= i < days@.len() ==> 1 <= #[trigger] days@[i] <= 3652059,
    ensures
        bucketing_post(days@, ignore_weekends, fill_gaps, out@),
        forall|i: int| 0 <= i < out@.len() ==> 1 <= #[trigger] out@[i].day <= 3652059,
{
    let counted = count_days(days, ignore_weekends);
    if !fill_gaps {
        return counted;
    }
    let ghost counted_view = counted@;
    let out = fill_gaps_internal(counted, ignore_weekends);
    proof {
        assert forall|i: int| 0 <= i < out@.len() implies (#[trigger] out@[i].count) as nat
            == day_count(days@, out@[i].day) by {
            assert(has_bucket(counted_view, out@[i]) || (out@[i].count == 0 && !has_day(
                counted_view,
                out@[i].day,
            )));
            if !has_bucket(counted_view, out@[i]) {
                assert(out@[i].count == 0 && !has_day(counted_view, out@[i].day));
                if day_count(days@, out@[i].day) > 0 {
                    assert(has_day(counted_view, out@[i].day));
                }
            }
        }
        assert forall|i: int|
            0 <= i < out@.len() && (#[trigger] out@[i].count) == 0 implies fill_gaps by {}
        assert forall|d: i64|
            bucket_included(d as int, ignore_weekends) && day_count(days@, d) > 0 implies #[trigger]
        has_day(out@, d) by {
            assert(has_day(counted_view, d));
        }
        if out@.len() > 0 {
            assert(out@[0].count > 0 && out@[out@.len() - 1].count > 0) by {
                assert(out@[0] == counted_view[0]);
                assert(out@[out@.len() - 1] == counted_view[counted_view.len() - 1]);
            }
        }
        if exists|i: int|
            0 <= i < days@.len() && bucket_included(#[trigger] days@[i] as int, ignore_weekends) {
            assert(counted_view.len() > 0);
        }
        if out@.len() > 0 {
            assert(counted_view.len() > 0);
        }
    }
    out
}

/// The by-date analysis.
pub struct ByDate {
    pub args: ByDateArgs,
}

impl ByDate {
    pub fn new(args: ByDateArgs) -> (r: Self)
        ensures
            r.args == args,
    {
        Self { args }
    }

    /// Whether the given day number is excluded as a weekend.
    pub fn is_weekend(&self, day: i64) -> (r: bool)
        requires
            day >= 0,
        ensures
            r == spec_is_weekend_day(day as int),
    {
        is_weekend_day(day)
    }

    /// Fills in missing dates between the first and last bucket with
    /// zero counts: one bucket for every calendar day of the observed
    /// range.  A gapless input comes back unchanged, so filling twice
    /// is the same as filling once.
    pub fn fill_date_gaps(&self, input: Vec<DateBucket>) -> (out: Vec<DateBucket>)
        requires
            buckets_sorted(input@),
            forall|i: int| 0 <= i < input@.len() ==> 1 <= #[trigger] input@[i].day <= 3652059,
        ensures
            buckets_sorted(out@),
            input@.len() == 0 ==> out@.len() == 0,
            input@.len() > 0 ==> out@.len() > 0 && out@[0] == input@[0] && out@[out@.len() - 1]
                == input@[input@.len() - 1],
            input@.len() > 0 ==> out@.len() == input@[input@.len() - 1].day - input@[0].day + 1,
            forall|d: i64| has_day(input@, d) ==> #[trigger] has_day(out@, d),
            forall|i: int|
                0 <= i < out@.len() ==> (#[trigger] has_bucket(input@, out@[i]) || (out@[i].count
                    == 0 && !has_day(input@, out@[i].day))),
            out@.len() > 0 ==> forall|d: i64|
                out@[0].day <= d <= out@[out@.len() - 1].day ==> #[trigger] has_day(out@, d),
            (input@.len() > 0 && (forall|d: i64|
                input@[0].day <= d <= input@[input@.len() - 1].day ==> #[trigger] has_day(
                    input@,
                    d,
                ))) ==> out@ == input@,
    {
        let out = fill_gaps_internal(input, false);
        proof {
            if out@.len() > 0 {
                lemma_dense_range_len(out@);
                if forall|d: i64|
                    input@[0].day <= d <= input@[input@.len() - 1].day ==> #[trigger] has_day(
                        input@,
                        d,
                    ) {
                    lemma_dense_range_len(input@);
                    let lo = input@[0].day;
                    assert forall|i: int| 0 <= i < out@.len() implies #[trigger] out@[i]
                        == input@[i] by {
                        lemma_sorted_gap(out@, 0, i);
                        lemma_sorted_gap(out@, i, out@.len() - 1);
                        assert(out@[i].day == lo + i);
                        lemma_sorted_gap(input@, 0, i);
                        lemma_sorted_gap(input@, i, input@.len() - 1);
                        assert(input@[i].day == lo + i);
                        assert(has_bucket(input@, out@[i]) || (out@[i].count == 0 && !has_day(
                            input@,
                            out@[i].day,
                        )));
                        assert(has_bucket(input@, out@[i])) by {
                            if !has_bucket(input@, out@[i]) {
                                assert(!has_day(input@, out@[i].day));
                                assert(has_day(input@, out@[i].day));
                            }
                        }
                        let s = choose|s: int| 0 <= s < input@.len() && input@[s] == out@[i];
                        lemma_sorted_gap(input@, 0, s);
                        lemma_sorted_gap(input@, s, input@.len() - 1);
                        assert(input@[s].day == lo + s);
                    }
                    assert(out@ =~= input@);
                }
            }
        }
        out
    }

    /// Walks the commits, drops restricted authors' commits, buckets
    /// the rest per local calendar day — excluding weekends when
    /// configured — and fills date gaps unless that is switched off.
    /// A commit whose local date falls outside the calendar model's
    /// years 1 to 9999 is dropped as well.
    pub fn process_commits(&self) -> (r: Result<Vec<DateBucket>, GritError>)
        ensures
            r matches Ok(out) ==> {
                &&& buckets_sorted(out@)
                &&& forall|i: int|
                    0 <= i < out@.len() ==> bucket_included(
                        #[trigger] out@[i].day as int,
                        self.args.ignore_weekends,
                    )
                &&& forall|i: int|
                    0 <= i < out@.len() && (#[trigger] out@[i].count) == 0
                        ==> !self.args.ignore_gap_fill
                &&& (!self.args.ignore_gap_fill && out@.len() > 0 ==> forall|d: i64|
                    out@[0].day <= d <= out@[out@.len() - 1].day && bucket_included(
                        d as int,
                        self.args.ignore_weekends,
                    ) ==> #[trigger] has_day(out@, d))
            },
            r matches Err(e) ==> e is RepositoryAccess,
    {
        let repo = crate::git_utils::get_repo(self.args.path.as_str())?;
        let restrict_authors = crate::utils::convert_string_list_to_vec(
            crate::effort::clone_opt_string(&self.args.restrict_authors),
        );
        let ids = crate::git_utils::revwalk_ids(&repo, false)?;
        let mut days: Vec<i64> = Vec::new();
        let n = ids.len();
        let mut i: usize = 0;
        while i < n
            invariant
                n == ids@.len(),
                i <= n,
                forall|t: int| 0 <= t < days@.len() ==> 1 <= #[trigger] days@[t] <= 3652059,
            decreases n - i,
        {
            let skip = match &restrict_authors {
                None => false,
                Some(v) => {
                    let author = crate::git_utils::commit_author_name(&repo, &ids[i])?;
                    crate::fame::str_vec_contains(v, author.as_str())
                },
            };
            if !skip {
                let seconds = crate::git_utils::commit_seconds(&repo, &ids[i])?;
                match crate::utils::convert_git_time(seconds) {
                    Some(day) => {
                        if 1 <= day && day <= 3652059 {
                            days.push(day);
                        }
                    },
                    None => {},
                }
            }
            i += 1;
        }
        Ok(
            bucket_commit_days(
                &days,
                self.args.ignore_weekends,
                !self.args.ignore_gap_fill,
            ),
        )
    }

    /// Chooses chart dimensions appropriate for the number of buckets.
    pub fn calculate_chart_dimensions(&self, data_points: usize) -> (r: (u32, u32))
        ensures
            data_points > 60 ==> r == (1920u32, 960u32),
            35 < data_points <= 60 ==> r == (1280u32, 960u32),
            data_points <= 35 ==> r == (1027u32, 768u32),
    {
        if data_points > 60 {
            (1920, 960)
        } else if data_points > 35 {
            (1280, 960)
        } else {
            (1027, 768)
        }
    }
}

impl crate::Processable<Vec<DateBucket>> for ByDate {
    fn process(&self) -> (r: Result<Vec<DateBucket>, crate::GritError>)
        ensures
            r matches Ok(out) ==> {
                &&& buckets_sorted(out@)
                &&& forall|i: int|
                    0 <= i < out@.len() ==> bucket_included(
                        #[trigger] out@[i].day as int,
                        self.args.ignore_weekends,
                    )
                &&& forall|i: int|
                    0 <= i < out@.len() && (#[trigger] out@[i].count) == 0
                        ==> !self.args.ignore_gap_fill
                &&& (!self.args.ignore_gap_fill && out@.len() > 0 ==> forall|d: i64|
                    out@[0].day <= d <= out@[out@.len() - 1].day && bucket_included(
                        d as int,
                        self.args.ignore_weekends,
                    ) ==> #[trigger] has_day(out@, d))
            },
            r matches Err(e) ==> e is RepositoryAccess,
    {
        self.process_commits()
    }
}

/// The number of commits across the buckets.
pub open spec fn sum_bucket_counts(s: Seq<DateBucket>) -> int
    decreases s.len(),
{
    if s.len() == 0 {
        0
    } else {
        sum_bucket_counts(s.drop_last()) + s.last().count
    }
}

/// Sums the bucket counts for the closing total row; `None` when the
/// total does not fit a machine word.
pub fn total_commit_count(bs: &Vec<DateBucket>) -> (r: Option<usize>)
    ensures
        match r {
            Some(t) => t as int == sum_bucket_counts(bs@),
            None => sum_bucket_counts(bs@) > usize::MAX,
        },
{
    let mut total: usize = 0;
    let n = bs.len();
    let mut i: usize = 0;
    while i < n
        invariant
            n == bs@.len(),
            i <= n,
            total as int == sum_bucket_counts(bs@.take(i as int)),
        decreases n - i,
    {
        proof {
            assert(bs@.take(i as int + 1).drop_last() =~= bs@.take(i as int));
            assert(bs@.take(i as int + 1).last() == bs@[i as int]);
        }
        total = match total.checked_add(bs[i].count) {
            Some(t) => t,
            None => {
                proof {
                    lemma_sum_bucket_prefix_le(bs@, i as int + 1);
                }
                return None;
            },
        };
        i += 1;
    }
    proof {
        assert(bs@.take(n as int) =~= bs@);
    }
    Some(total)
}

proof fn lemma_sum_bucket_prefix_le(s: Seq<DateBucket>, m: int)
    requires
        0 <= m <= s.len(),
    ensures
        sum_bucket_counts(s.take(m)) <= sum_bucket_counts(s),
    decreases s.len() - m,
{
    if m == s.len() {
        assert(s.take(m) =~= s);
    } else {
        lemma_sum_bucket_prefix_le(s, m + 1);
        assert(s.take(m + 1).drop_last() =~= s.take(m));
        assert(s.take(m + 1).last() == s[m]);
    }
}

/// Strictly sorted bucket days grow by at least one per position.
proof fn lemma_sorted_gap(s: Seq<DateBucket>, i: int, j: int)
    requires
        buckets_sorted(s),
        0 <= i <= j < s.len(),
    ensures
        s[j].day - s[i].day >= j - i,
    decreases j - i,
{
    if i < j {
        lemma_sorted_gap(s, i, j - 1);
        assert(s[j - 1].day < s[j].day);
    }
}

/// A sorted bucket run that holds every day of its range has exactly
/// one bucket per day.
proof fn lemma_dense_range_len(out: Seq<DateBucket>)
    requires
        out.len() > 0,
        buckets_sorted(out),
        forall|d: i64| out[0].day <= d <= out[out.len() - 1].day ==> #[trigger] has_day(out, d),
    ensures
        out.len() == out[out.len() - 1].day - out[0].day + 1,
    decreases out.len(),
{
    if out.len() == 1 {
    } else {
        let front = out.drop_last();
        assert(forall|i: int| 0 <= i < front.len() ==> #[trigger] front[i] == out[i]);
        assert(out[out.len() - 2].day < out[out.len() - 1].day);
        assert(out[out.len() - 2].day == out[out.len() - 1].day - 1) by {
            if out[out.len() - 2].day < out[out.len() - 1].day - 1 {
                let d = out[out.len() - 1].day - 1;
                assert(has_day(out, d as i64));
                let t = choose|t: int| 0 <= t < out.len() && out[t].day == d;
                if t < out.len() - 2 {
                    assert(out[t].day < out[out.len() - 2].day);
                } else if t == out.len() - 2 {
                } else {
                    assert(t == out.len() - 1);
                }
            }
        }
        assert forall|d: i64|
            front[0].day <= d <= front[front.len() - 1].day implies #[trigger] has_day(
            front,
            d,
        ) by {
            assert(has_day(out, d));
            let t = choose|t: int| 0 <= t < out.len() && out[t].day == d;
            assert(t < out.len() - 1) by {
                if t == out.len() - 1 {
                    assert(out[out.len() - 2].day >= d);
                    assert(out[out.len() - 2].day < out[t].day);
                }
            }
            assert(front[t].day == d);
        }
        lemma_dense_range_len(front);
    }
}

} // verus!
