use vstd::prelude::*;

use crate::GritError;
use crate::Processable;
use crate::effort::clone_opt_string;
use crate::fame::clone_opt_id;
use crate::fame::clone_string;
use crate::git_utils::CommitRange;
use crate::git_utils::blame_hunks;
use crate::git_utils::commit_seconds;
use crate::git_utils::get_repo;
use crate::utils::char_ints;
use crate::utils::convert_git_time;
use crate::utils::convert_string_list_to_vec;
use crate::utils::lex_le;
use crate::utils::str_le;

verus! {

/// Configuration for the by-file analysis.
pub struct ByFileArgs {
    pub path: String,
    pub full_path_filename: String,
    pub output_file: Option<String>,
    pub restrict_authors: Option<String>,
}

impl ByFileArgs {
    pub fn new(
        path: String,
        full_path_filename: String,
        output_file: Option<String>,
        restrict_authors: Option<String>,
    ) -> (r: Self)
        ensures
            r.path == path && r.full_path_filename == full_path_filename && r.output_file
                == output_file && r.restrict_authors == restrict_authors,
    {
        Self { path, full_path_filename, output_file, restrict_authors }
    }
}

/// One author's lines in the file on one local calendar day.
pub struct FileContribution {
    pub author: String,
    pub day: i64,
    pub lines: usize,
}

impl FileContribution {
    pub fn new(author: String, day: i64) -> (r: Self)
        ensures
            r.author == author && r.day == day && r.lines == 0,
    {
        Self { author, day, lines: 0 }
    }
}

/// One observation: an author's hunk with its commit's local day.
pub struct ContribItem {
    pub author: String,
    pub day: i64,
    pub lines: usize,
}

/// Total line count of a run of observations.
pub open spec fn sum_item_lines(s: Seq<ContribItem>) -> int
    decreases s.len(),
{
    if s.len() == 0 {
        0
    } else {
        sum_item_lines(s.drop_last()) + s.last().lines
    }
}

/// Line count of the observations for one (author, day) pair.
pub open spec fn key_item_lines(s: Seq<ContribItem>, a: Seq<char>, d: i64) -> int
    decreases s.len(),
{
    if s.len() == 0 {
        0
    } else {
        key_item_lines(s.drop_last(), a, d) + if s.last().author@ == a && s.last().day == d {
            s.last().lines as int
        } else {
            0
        }
    }
}

/// Some observation carries this (author, day) pair.
pub open spec fn items_have_key(s: Seq<ContribItem>, a: Seq<char>, d: i64) -> bool {
    exists|i: int| 0 <= i < s.len() && s[i].author@ == a && s[i].day == d
}

/// Some contribution carries this (author, day) pair.
pub open spec fn contribs_have_key(s: Seq<FileContribution>, a: Seq<char>, d: i64) -> bool {
    exists|i: int| 0 <= i < s.len() && s[i].author@ == a && s[i].day == d
}

/// Total line count of a run of contributions.
pub open spec fn sum_contrib_lines(s: Seq<FileContribution>) -> int
    decreases s.len(),
{
    if s.len() == 0 {
        0
    } else {
        sum_contrib_lines(s.drop_last()) + s.last().lines
    }
}

/// The aggregation contract: one contribution per (author, day) pair
/// seen in the observations, its lines that pair's total, and no line
/// lost or double counted.
pub open spec fn contrib_post(s: Seq<ContribItem>, out: Seq<FileContribution>) -> bool {
    &&& forall|i: int, j: int|
        0 <= i < j < out.len() ==> !(out[i].author@ == out[j].author@ && out[i].day == out[j].day)
    &&& forall|i: int|
        0 <= i < out.len() ==> (#[trigger] out[i].lines) as int == key_item_lines(
            s,
            out[i].author@,
            out[i].day,
        )
    &&& forall|a: Seq<char>, d: i64|
        #[trigger] items_have_key(s, a, d) <==> contribs_have_key(out, a, d)
    &&& sum_contrib_lines(out) == sum_item_lines(s)
}

proof fn lemma_contrib_le_sum(s: Seq<FileContribution>, k: int)
    requires
        0 <= k < s.len(),
    ensures
        s[k].lines <= sum_contrib_lines(s),
    decreases s.len(),
{
    if k < s.len() - 1 {
        lemma_contrib_le_sum(s.drop_last(), k);
    } else {
        lemma_sum_contrib_nonneg(s.drop_last());
    }
}

proof fn lemma_sum_contrib_nonneg(s: Seq<FileContribution>)
    ensures
        sum_contrib_lines(s) >= 0,
    decreases s.len(),
{
    if s.len() > 0 {
        lemma_sum_contrib_nonneg(s.drop_last());
    }
}

proof fn lemma_sum_contrib_update(s: Seq<FileContribution>, k: int, e: FileContribution)
    requires
        0 <= k < s.len(),
    ensures
        sum_contrib_lines(s.update(k, e)) == sum_contrib_lines(s) - s[k].lines + e.lines,
    decreases s.len(),
{
    let t = s.update(k, e);
    if k == s.len() - 1 {
        assert(t.drop_last() =~= s.drop_last());
        assert(t.last() == e);
    } else {
        assert(t.drop_last() =~= s.drop_last().update(k, e));
        assert(t.last() == s.last());
        lemma_sum_contrib_update(s.drop_last(), k, e);
    }
}

proof fn lemma_sum_items_prefix_le(s: Seq<ContribItem>, m: int)
    requires
        0 <= m <= s.len(),
    ensures
        sum_item_lines(s.take(m)) <= sum_item_lines(s),
    decreases s.len() - m,
{
    if m == s.len() {
        assert(s.take(m) =~= s);
    } else {
        lemma_sum_items_prefix_le(s, m + 1);
        assert(s.take(m + 1).drop_last() =~= s.take(m));
        assert(s.take(m + 1).last() == s[m]);
    }
}

/// Merges the observations into per-(author, day) contributions,
/// summing line counts.  Fails only when the total line count does not
/// fit a machine word.
pub fn aggregate_contributions(items: &Vec<ContribItem>) -> (r: Result<
    Vec<FileContribution>,
    GritError,
>)
    ensures
        match r {
            Ok(out) => contrib_post(items@, out@) && sum_item_lines(items@) <= usize::MAX,
            Err(e) => sum_item_lines(items@) > usize::MAX && e is Overflow,
        },
{
    let mut out: Vec<FileContribution> = Vec::new();
    let mut total: usize = 0;
    let n = items.len();
    let mut i: usize = 0;
    while i < n
        invariant
            n == items@.len(),
            i <= n,
            total as int == sum_item_lines(items@.take(i as int)),
            sum_contrib_lines(out@) == total as int,
            forall|k: int, t: int|
                0 <= k < t < out@.len() ==> !(out@[k].author@ == out@[t].author@ && out@[k].day
                    == out@[t].day),
            forall|k: int|
                0 <= k < out@.len() ==> (#[trigger] out@[k].lines) as int == key_item_lines(
                    items@.take(i as int),
                    out@[k].author@,
                    out@[k].day,
                ),
            forall|a: Seq<char>, d: i64|
                #[trigger] items_have_key(items@.take(i as int), a, d) <==> contribs_have_key(
                    out@,
                    a,
                    d,
                ),
        decreases n - i,
    {
        let ghost pre = items@.take(i as int);
        let ghost post = items@.take(i as int + 1);
        let ghost out0 = out@;
        proof {
            assert(post.drop_last() =~= pre);
            assert(post.last() == items@[i as int]);
            assert(items_have_key(post, items@[i as int].author@, items@[i as int].day)) by {
                assert(post[post.len() - 1].author@ == items@[i as int].author@ && post[post.len()
                    - 1].day == items@[i as int].day);
            }
            assert forall|a: Seq<char>, d: i64| #[trigger]
                items_have_key(post, a, d) implies items_have_key(pre, a, d) || (
            items@[i as int].author@ == a && items@[i as int].day == d) by {
                let t = choose|t: int|
                    0 <= t < post.len() && post[t].author@ == a && post[t].day == d;
                if t < i {
                    assert(pre[t] == post[t]);
                }
            }
            assert forall|a: Seq<char>, d: i64| #[trigger]
                items_have_key(pre, a, d) implies items_have_key(post, a, d) by {
                let t = choose|t: int|
                    0 <= t < pre.len() && pre[t].author@ == a && pre[t].day == d;
                assert(post[t] == pre[t]);
            }
        }
        let hl = items[i].lines;
        let new_total = match total.checked_add(hl) {
            Some(t) => t,
            None => {
                proof {
                    assert(sum_item_lines(post) > usize::MAX);
                    lemma_sum_items_prefix_le(items@, i as int + 1);
                }
                return Err(GritError::Overflow);
            },
        };
        total = new_total;
        let m = out.len();
        let mut k: usize = 0;
        let mut found = false;
        while k < m && !found
            invariant
                n == items@.len(),
                i < n,
                m == out@.len(),
                k <= m,
                !found ==> forall|t: int|
                    0 <= t < k ==> !((#[trigger] out@[t].author)@ == items@[i as int].author@
                        && out@[t].day == items@[i as int].day),
                found ==> k < m && out@[k as int].author@ == items@[i as int].author@
                    && out@[k as int].day == items@[i as int].day,
            decreases m - k + (if found {
                0int
            } else {
                1int
            }),
        {
            if out[k].day == items[i].day && crate::utils::str_eq(
                out[k].author.as_str(),
                items[i].author.as_str(),
            ) {
                found = true;
            } else {
                k += 1;
            }
        }
        if found {
            proof {
                lemma_contrib_le_sum(out@, k as int);
            }
            let ghost pre_remove = out@;
            let mut e = out.remove(k);
            let ghost e0 = e;
            e.lines = e.lines + hl;
            let ghost e1 = e;
            out.insert(k, e);
            proof {
                assert(out@ =~= pre_remove.update(k as int, e1));
                lemma_sum_contrib_update(pre_remove, k as int, e1);
                assert(forall|t: int|
                    0 <= t < out@.len() && t != k ==> #[trigger] out@[t] == pre_remove[t]);
                assert(out@[k as int] == e1 && e1.author == e0.author && e1.day == e0.day && e0
                    == pre_remove[k as int]);
                assert forall|a: Seq<char>, d: i64| #[trigger]
                    contribs_have_key(out@, a, d) <==> contribs_have_key(pre_remove, a, d) by {
                    if contribs_have_key(out@, a, d) {
                        let t = choose|t: int|
                            0 <= t < out@.len() && out@[t].author@ == a && out@[t].day == d;
                        assert(pre_remove[t].author@ == a && pre_remove[t].day == d);
                    }
                    if contribs_have_key(pre_remove, a, d) {
                        let t = choose|t: int|
                            0 <= t < pre_remove.len() && pre_remove[t].author@ == a
                                && pre_remove[t].day == d;
                        assert(out@[t].author@ == a && out@[t].day == d);
                    }
                }
                assert(contribs_have_key(out@, items@[i as int].author@, items@[i as int].day))
                    by {
                    assert(out@[k as int].author@ == items@[i as int].author@
                        && out@[k as int].day == items@[i as int].day);
                }
                assert forall|a: Seq<char>, d: i64| #[trigger]
                    contribs_have_key(out0, a, d) implies contribs_have_key(out@, a, d) by {
                    let t = choose|t: int|
                        0 <= t < out0.len() && out0[t].author@ == a && out0[t].day == d;
                    assert(out@[t].author@ == a && out@[t].day == d);
                }
                assert forall|a: Seq<char>, d: i64| #[trigger]
                    contribs_have_key(out@, a, d) implies contribs_have_key(out0, a, d) || (
                items@[i as int].author@ == a && items@[i as int].day == d) by {
                    let t = choose|t: int|
                        0 <= t < out@.len() && out@[t].author@ == a && out@[t].day == d;
                    assert(out0[t].author@ == a && out0[t].day == d);
                }
            }
        } else {
            let e = FileContribution {
                author: clone_string(&items[i].author),
                day: items[i].day,
                lines: hl,
            };
            out.push(e);
            proof {
                assert(out@.drop_last() =~= out0);
                assert forall|a: Seq<char>, d: i64| #[trigger]
                    contribs_have_key(out@, a, d) implies contribs_have_key(out0, a, d) || (
                items@[i as int].author@ == a && items@[i as int].day == d) by {
                    let t = choose|t: int|
                        0 <= t < out@.len() && out@[t].author@ == a && out@[t].day == d;
                    if t < out0.len() {
                        assert(out0[t] == out@[t]);
                    }
                }
                assert forall|a: Seq<char>, d: i64| #[trigger]
                    contribs_have_key(out0, a, d) implies contribs_have_key(out@, a, d) by {
                    let t = choose|t: int|
                        0 <= t < out0.len() && out0[t].author@ == a && out0[t].day == d;
                    assert(out@[t] == out0[t]);
                }
                assert(contribs_have_key(out@, items@[i as int].author@, items@[i as int].day))
                    by {
                    assert(out@[out@.len() - 1].author@ == items@[i as int].author@
                        && out@[out@.len() - 1].day == items@[i as int].day);
                }
                assert(key_item_lines(pre, items@[i as int].author@, items@[i as int].day) == 0)
                    by {
                    lemma_no_key_no_item_lines(pre, items@[i as int].author@, items@[i as int].day);
                }
            }
        }
        proof {
            assert forall|k2: int|
                0 <= k2 < out@.len() implies (#[trigger] out@[k2].lines) as int == key_item_lines(
                post,
                out@[k2].author@,
                out@[k2].day,
            ) by {
                assert(key_item_lines(post, out@[k2].author@, out@[k2].day) == key_item_lines(
                    pre,
                    out@[k2].author@,
                    out@[k2].day,
                ) + if items@[i as int].author@ == out@[k2].author@ && items@[i as int].day
                    == out@[k2].day {
                    items@[i as int].lines as int
                } else {
                    0
                });
            }
            assert forall|a: Seq<char>, d: i64| #[trigger]
                items_have_key(post, a, d) implies contribs_have_key(out@, a, d) by {
                if items_have_key(pre, a, d) {
                    assert(contribs_have_key(out0, a, d));
                    assert(contribs_have_key(out@, a, d));
                } else {
                    assert(items@[i as int].author@ == a && items@[i as int].day == d);
                }
            }
            assert forall|a: Seq<char>, d: i64| #[trigger]
                contribs_have_key(out@, a, d) implies items_have_key(post, a, d) by {
                if contribs_have_key(out0, a, d) {
                    assert(items_have_key(pre, a, d));
                }
            }
        }
        i += 1;
    }
    proof {
        assert(items@.take(n as int) =~= items@);
    }
    Ok(out)
}

proof fn lemma_no_key_no_item_lines(s: Seq<ContribItem>, a: Seq<char>, d: i64)
    requires
        !items_have_key(s, a, d),
    ensures
        key_item_lines(s, a, d) == 0,
    decreases s.len(),
{
    if s.len() > 0 {
        assert(!items_have_key(s.drop_last(), a, d)) by {
            if items_have_key(s.drop_last(), a, d) {
                let t = choose|t: int|
                    0 <= t < s.drop_last().len() && s.drop_last()[t].author@ == a
                        && s.drop_last()[t].day == d;
                assert(s[t].author@ == a && s[t].day == d);
            }
        }
        lemma_no_key_no_item_lines(s.drop_last(), a, d);
        assert(!(s.last().author@ == a && s.last().day == d)) by {
            if s.last().author@ == a && s.last().day == d {
                assert(s[s.len() - 1].author@ == a && s[s.len() - 1].day == d);
            }
        }
    }
}

/// Output order of contributions: descending by day, ties broken by
/// author name ascending.
pub open spec fn contrib_le(x: FileContribution, y: FileContribution) -> bool {
    x.day > y.day || (x.day == y.day && lex_le(char_ints(x.author@), char_ints(y.author@)))
}

proof fn lemma_contrib_le_total(x: FileContribution, y: FileContribution)
    ensures
        contrib_le(x, y) || contrib_le(y, x),
{
    if x.day == y.day {
        crate::utils::lemma_lex_le_total(char_ints(x.author@), char_ints(y.author@));
    }
}

proof fn lemma_contrib_le_trans(x: FileContribution, y: FileContribution, z: FileContribution)
    requires
        contrib_le(x, y),
        contrib_le(y, z),
    ensures
        contrib_le(x, z),
{
    if x.day == y.day && y.day == z.day {
        crate::utils::lemma_lex_le_trans(
            char_ints(x.author@),
            char_ints(y.author@),
            char_ints(z.author@),
        );
    }
}

fn contrib_le_exec(x: &FileContribution, y: &FileContribution) -> (r: bool)
    ensures
        r == contrib_le(*x, *y),
{
    if x.day > y.day {
        true
    } else if x.day < y.day {
        false
    } else {
        str_le(x.author.as_str(), y.author.as_str())
    }
}

/// Sorts contributions descending by day, ties broken by author name:
/// a permutation of the input in the output order.
pub fn sort_contributions(input: Vec<FileContribution>) -> (out: Vec<FileContribution>)
    ensures
        out@.to_multiset() == input@.to_multiset(),
        forall|i: int, j: int| 0 <= i < j < out@.len() ==> contrib_le(out@[i], out@[j]),
{
    let mut out: Vec<FileContribution> = Vec::new();
    let mut rest = input;
    proof {
        broadcast use vstd::seq_lib::group_to_multiset_ensures;
    }
    while rest.len() > 0
        invariant
            out@.to_multiset().add(rest@.to_multiset()) == input@.to_multiset(),
            forall|i: int, j: int| 0 <= i < j < out@.len() ==> contrib_le(out@[i], out@[j]),
        decreases rest@.len(),
    {
        let ghost old_rest = rest@;
        let ghost old_out = out@;
        let x = rest.pop().unwrap();
        let ghost xg = x;
        proof {
            broadcast use vstd::seq_lib::group_to_multiset_ensures;
            broadcast use vstd::multiset::group_multiset_axioms;

            assert(old_rest =~= old_rest.drop_last().push(xg));
            assert(old_rest.to_multiset() =~= rest@.to_multiset().insert(xg));
        }
        let n = out.len();
        let mut k: usize = 0;
        while k < n && !contrib_le_exec(&x, &out[k])
            invariant
                n == out@.len(),
                k <= n,
                forall|t: int| 0 <= t < k ==> !contrib_le(xg, #[trigger] out@[t]),
                x == xg,
            decreases n - k,
        {
            k += 1;
        }
        out.insert(k, x);
        proof {
            broadcast use vstd::seq_lib::group_to_multiset_ensures;
            broadcast use vstd::multiset::group_multiset_axioms;

            assert(out@ =~= old_out.insert(k as int, xg));
            crate::fame::lemma_insert_to_multiset(old_out, k as int, xg);
            assert(out@.to_multiset().add(rest@.to_multiset()) =~= input@.to_multiset());
            assert(forall|t: int| 0 <= t < k ==> #[trigger] out@[t] == old_out[t]);
            assert(out@[k as int] == xg);
            assert(forall|t: int| k < t < out@.len() ==> #[trigger] out@[t] == old_out[t - 1]);
            assert forall|i: int, j: int| 0 <= i < j < out@.len() implies contrib_le(
                out@[i],
                out@[j],
            ) by {
                if i < k && j == k {
                    lemma_contrib_le_total(xg, old_out[i]);
                } else if i == k && j > k {
                    assert(contrib_le(xg, old_out[k as int]));
                    if j - 1 > k {
                        lemma_contrib_le_trans(xg, old_out[k as int], old_out[j - 1]);
                    }
                } else if i < k && j > k {
                    assert(contrib_le(old_out[i], old_out[j - 1]));
                }
            }
        }
    }
    out
}

/// A permutation of pairwise (author, day)-distinct contributions is
/// itself pairwise distinct.
proof fn lemma_permuted_contribs_distinct(pre: Seq<FileContribution>, post: Seq<FileContribution>)
    requires
        post.to_multiset() == pre.to_multiset(),
        forall|i: int, j: int|
            0 <= i < j < pre.len() ==> !(pre[i].author@ == pre[j].author@ && pre[i].day
                == pre[j].day),
    ensures
        forall|i: int, j: int|
            0 <= i < j < post.len() ==> !(post[i].author@ == post[j].author@ && post[i].day
                == post[j].day),
{
    broadcast use vstd::seq_lib::group_to_multiset_ensures;
    broadcast use vstd::multiset::group_multiset_axioms;

    assert forall|i: int, j: int|
        0 <= i < j < post.len() implies !(post[i].author@ == post[j].author@ && post[i].day
        == post[j].day) by {
        if post[i].author@ == post[j].author@ && post[i].day == post[j].day {
            if post[i] == post[j] {
                let x = post[i];
                assert(post.remove(j).to_multiset() =~= post.to_multiset().remove(x));
                assert(post.remove(j)[i] == x);
                assert(post.remove(j).contains(x));
                assert(post.remove(j).to_multiset().count(x) > 0);
                assert(post.to_multiset().remove(x).count(x) == post.to_multiset().count(x) - 1);
                assert(pre.to_multiset().count(x) >= 2);
                assert(pre.contains(x));
                let p1 = choose|p1: int| 0 <= p1 < pre.len() && pre[p1] == x;
                assert(pre.remove(p1).to_multiset() =~= pre.to_multiset().remove(x));
                assert(pre.remove(p1).to_multiset().count(x) >= 1);
                assert(pre.remove(p1).contains(x));
                let p2 = choose|p2: int| 0 <= p2 < pre.remove(p1).len() && pre.remove(p1)[p2] == x;
                if p2 < p1 {
                    assert(pre[p2] == x);
                } else {
                    assert(pre[p2 + 1] == x);
                }
            } else {
                let x = post[i];
                let y = post[j];
                assert(post.contains(x) && post.contains(y));
                assert(post.to_multiset().count(x) > 0 && post.to_multiset().count(y) > 0);
                assert(pre.to_multiset().count(x) > 0 && pre.to_multiset().count(y) > 0);
                assert(pre.contains(x) && pre.contains(y));
                let p1 = choose|p1: int| 0 <= p1 < pre.len() && pre[p1] == x;
                let p2 = choose|p2: int| 0 <= p2 < pre.len() && pre[p2] == y;
                assert(p1 != p2);
            }
        }
    }
}

/// The by-file analysis.
pub struct ByFile {
    pub args: ByFileArgs,
}

impl ByFile {
    pub fn new(args: ByFileArgs) -> (r: Self)
        ensures
            r.args == args,
    {
        Self { args }
    }

    /// Blames the configured file and groups the hunks into one
    /// contribution per (author, local day) pair, restricted authors'
    /// hunks dropped individually, sorted by most recent day first.
    pub fn process_blame(&self) -> (r: Result<Vec<FileContribution>, GritError>)
        ensures
            r matches Ok(v) ==> {
                &&& forall|i: int, j: int| 0 <= i < j < v@.len() ==> contrib_le(v@[i], v@[j])
                &&& forall|i: int, j: int|
                    0 <= i < j < v@.len() ==> !(v@[i].author@ == v@[j].author@ && v@[i].day
                        == v@[j].day)
            },
            r matches Err(e) ==> (e is RepositoryAccess || e is Blame || e is Overflow),
    {
        let repo = get_repo(self.args.path.as_str())?;
        let restrict_authors = convert_string_list_to_vec(
            clone_opt_string(&self.args.restrict_authors),
        );
        let range = CommitRange { earliest: None, latest: None };
        let mut opts = crate::git_utils::blame_options(&range)?;
        let hunks = blame_hunks(&repo, self.args.full_path_filename.as_str(), &mut opts)?;
        let mut items: Vec<ContribItem> = Vec::new();
        let n = hunks.len();
        let mut i: usize = 0;
        while i < n
            invariant
                n == hunks@.len(),
                i <= n,
            decreases n - i,
        {
            let skip = match &restrict_authors {
                None => false,
                Some(v) => crate::fame::str_vec_contains(v, hunks[i].author.as_str()),
            };
            if !skip {
                let seconds = commit_seconds(&repo, &hunks[i].commit_id)?;
                match convert_git_time(seconds) {
                    Some(day) => {
                        items.push(
                            ContribItem {
                                author: clone_string(&hunks[i].author),
                                day,
                                lines: hunks[i].lines,
                            },
                        );
                    },
                    None => {},
                }
            }
            i += 1;
        }
        let contributions = aggregate_contributions(&items)?;
        let ghost pre_sort = contributions@;
        let sorted = sort_contributions(contributions);
        proof {
            lemma_permuted_contribs_distinct(pre_sort, sorted@);
        }
        Ok(sorted)
    }
}

impl Processable<Vec<FileContribution>> for ByFile {
    fn process(&self) -> (r: Result<Vec<FileContribution>, GritError>)
        ensures
            r matches Ok(v) ==> {
                &&& forall|i: int, j: int| 0 <= i < j < v@.len() ==> contrib_le(v@[i], v@[j])
                &&& forall|i: int, j: int|
                    0 <= i < j < v@.len() ==> !(v@[i].author@ == v@[j].author@ && v@[i].day
                        == v@[j].day)
            },
            r matches Err(e) ==> (e is RepositoryAccess || e is Blame || e is Overflow),
    {
        self.process_blame()
    }
}

} // verus!
