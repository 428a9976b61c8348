use vstd::prelude::*;

use crate::GritError;
use crate::git_utils::get_repo;
use crate::git_utils::list_tracked_files;

verus! {

pub uninterp spec fn glob_pattern_ok(p: Seq<char>) -> bool;

pub uninterp spec fn glob_match_of(p: Seq<char>, s: Seq<char>) -> bool;

/// Relies on glob::Pattern::new: whether the text compiles as a glob
/// pattern; that depends on the text alone.
#[verifier::external_body]
fn check_pattern(p: &str) -> (r: bool)
    ensures
        r == glob_pattern_ok(p@),
{
    glob::Pattern::new(p).is_ok()
}

/// Relies on glob::Pattern::new and glob::Pattern::matches: whether
/// `s` matches the glob pattern `p`; both depend on the two texts
/// alone.
#[verifier::external_body]
fn glob_match(p: &str, s: &str) -> (r: bool)
    requires
        glob_pattern_ok(p@),
    ensures
        r == glob_match_of(p@, s@),
{
    match glob::Pattern::new(p) {
        Ok(pat) => pat.matches(s),
        Err(_) => false,
    }
}

/// Whether a file survives the include and exclude pattern lists: some
/// include matches (or there are none), and no exclude matches.
pub open spec fn file_passes(
    f: Seq<char>,
    includes: Option<Seq<String>>,
    excludes: Option<Seq<String>>,
) -> bool {
    (match includes {
        None => true,
        Some(ps) => some_pattern_matches(ps, f),
    }) && (match excludes {
        None => true,
        Some(ps) => !some_pattern_matches(ps, f),
    })
}

/// Some pattern in the list matches the file.
pub open spec fn some_pattern_matches(ps: Seq<String>, f: Seq<char>) -> bool {
    exists|i: int| 0 <= i < ps.len() && glob_match_of(#[trigger] ps[i]@, f)
}

/// The files that survive the pattern lists, in input order.
pub open spec fn passing_files(
    s: Seq<String>,
    includes: Option<Seq<String>>,
    excludes: Option<Seq<String>>,
) -> Seq<String>
    decreases s.len(),
{
    if s.len() == 0 {
        s
    } else {
        let rest = passing_files(s.drop_last(), includes, excludes);
        if file_passes(s.last()@, includes, excludes) {
            rest.push(s.last())
        } else {
            rest
        }
    }
}

/// No segment holds a comma.
pub open spec fn segments_comma_free(v: Seq<Seq<char>>) -> bool {
    forall|i: int, j: int| 0 <= i < v.len() && 0 <= j < v[i].len() ==> #[trigger] v[i][j] != ','
}

/// `v` is the comma-splitting of `s`: at least one comma-free segment
/// whose comma-join restores `s`.  Such a decomposition is unique
/// (`lemma_comma_split_unique`).
pub open spec fn splits_into(s: Seq<char>, v: Seq<Seq<char>>) -> bool {
    v.len() >= 1 && segments_comma_free(v) && join_commas(v) == s
}

/// `segs` is the comma-splitting of the optional text, absent exactly
/// when the text is absent.
pub open spec fn opt_splits_into(input: Option<String>, segs: Option<Vec<String>>) -> bool {
    match input {
        None => segs is None,
        Some(s) => segs matches Some(v) && splits_into(s@, v@.map_values(|x: String| x@)),
    }
}

/// The comma-splitting of a text is unique: two comma-free segment
/// lists with the same comma-join are the same list.
pub proof fn lemma_comma_split_unique(a: Seq<Seq<char>>, b: Seq<Seq<char>>)
    requires
        a.len() >= 1,
        b.len() >= 1,
        segments_comma_free(a),
        segments_comma_free(b),
        join_commas(a) == join_commas(b),
    ensures
        a =~= b,
    decreases a.len(),
{
    let j = join_commas(a);
    if a.len() == 1 && b.len() == 1 {
        assert(a[0] == j && b[0] == j);
    } else if a.len() == 1 && b.len() >= 2 {
        assert(j == b[0] + seq![','] + join_commas(b.drop_first()));
        assert(j[b[0].len() as int] == ',');
        assert(a[0][b[0].len() as int] == ',');
    } else if a.len() >= 2 && b.len() == 1 {
        assert(j == a[0] + seq![','] + join_commas(a.drop_first()));
        assert(j[a[0].len() as int] == ',');
        assert(b[0][a[0].len() as int] == ',');
    } else {
        assert(j == a[0] + seq![','] + join_commas(a.drop_first()));
        assert(j == b[0] + seq![','] + join_commas(b.drop_first()));
        assert(a[0].len() == b[0].len()) by {
            if a[0].len() < b[0].len() {
                assert(j[a[0].len() as int] == ',');
                assert(b[0][a[0].len() as int] == ',');
            } else if b[0].len() < a[0].len() {
                assert(j[b[0].len() as int] == ',');
                assert(a[0][b[0].len() as int] == ',');
            }
        }
        assert(a[0] =~= b[0]) by {
            assert forall|t: int| 0 <= t < a[0].len() implies a[0][t] == b[0][t] by {
                assert(j[t] == a[0][t]);
                assert(j[t] == b[0][t]);
            }
        }
        assert(join_commas(a.drop_first()) =~= join_commas(b.drop_first())) by {
            let ja = join_commas(a.drop_first());
            let jb = join_commas(b.drop_first());
            assert(ja.len() == jb.len());
            assert forall|t: int| 0 <= t < ja.len() implies ja[t] == jb[t] by {
                assert(j[t + a[0].len() + 1] == ja[t]);
                assert(j[t + b[0].len() + 1] == jb[t]);
            }
        }
        assert(segments_comma_free(a.drop_first())) by {
            assert(forall|i: int|
                0 <= i < a.drop_first().len() ==> #[trigger] a.drop_first()[i] == a[i + 1]);
        }
        assert(segments_comma_free(b.drop_first())) by {
            assert(forall|i: int|
                0 <= i < b.drop_first().len() ==> #[trigger] b.drop_first()[i] == b[i + 1]);
        }
        lemma_comma_split_unique(a.drop_first(), b.drop_first());
        assert forall|i: int| 0 <= i < a.len() implies a[i] == b[i] by {
            if i > 0 {
                assert(a.drop_first()[i - 1] == b.drop_first()[i - 1]);
            }
        }
    }
}

/// Some segment of the text's comma-splitting fails to compile as a
/// glob pattern.
pub open spec fn has_malformed_pattern(input: Option<String>) -> bool {
    match input {
        None => false,
        Some(s) => exists|v: Seq<Seq<char>>|
            #[trigger] splits_into(s@, v) && exists|i: int|
                0 <= i < v.len() && !glob_pattern_ok(#[trigger] v[i]),
    }
}

/// Malformedness of a pattern list depends on the text alone.
pub proof fn lemma_has_malformed_view(a: Option<String>, b: Option<String>)
    requires
        a is None <==> b is None,
        a matches Some(x) ==> (b matches Some(y) && x@ == y@),
    ensures
        has_malformed_pattern(a) == has_malformed_pattern(b),
{
}

/// A comma-splitting of a text splits every text with the same
/// characters.
pub proof fn lemma_opt_splits_view(a: Option<String>, b: Option<String>, segs: Option<Vec<String>>)
    requires
        a is None <==> b is None,
        a matches Some(x) ==> (b matches Some(y) && x@ == y@),
        opt_splits_into(b, segs),
    ensures
        opt_splits_into(a, segs),
{
}

/// The pattern at one position compiles.
pub open spec fn pattern_ok_at(ps: Seq<String>, i: int) -> bool {
    glob_pattern_ok(ps[i]@)
}

/// Unfolds `all_patterns_ok` at a known list.
pub proof fn lemma_all_patterns_ok_unfold(ps: Seq<String>)
    requires
        all_patterns_ok(Some(ps)),
    ensures
        forall|i: int| 0 <= i < ps.len() ==> #[trigger] pattern_ok_at(ps, i),
{
    let o = Some(ps);
    assert(all_patterns_ok(o));
    assert(o matches Some(ps2) && ps2 == ps);
}

/// Folds the pointwise facts into `all_patterns_ok`.
pub proof fn lemma_all_patterns_ok_fold(ps: Seq<String>)
    requires
        forall|i: int| 0 <= i < ps.len() ==> #[trigger] pattern_ok_at(ps, i),
    ensures
        all_patterns_ok(Some(ps)),
{
    let o = Some(ps);
    assert(o matches Some(ps2) && ps2 == ps);
}

/// All patterns in an optional list compile.
pub open spec fn all_patterns_ok(o: Option<Seq<String>>) -> bool {
    match o {
        None => true,
        Some(ps) => forall|i: int| 0 <= i < ps.len() ==> #[trigger] pattern_ok_at(ps, i),
    }
}

/// Whether some pattern in the list matches the file.
fn any_matches(ps: &Vec<String>, f: &str) -> (r: bool)
    requires
        forall|i: int| 0 <= i < ps@.len() ==> #[trigger] pattern_ok_at(ps@, i),
    ensures
        r == some_pattern_matches(ps@, f@),
{
    let n = ps.len();
    let mut i: usize = 0;
    while i < n
        invariant
            n == ps@.len(),
            i <= n,
            forall|t: int| 0 <= t < ps@.len() ==> #[trigger] pattern_ok_at(ps@, t),
            forall|t: int| 0 <= t < i ==> !glob_match_of(#[trigger] ps@[t]@, f@),
        decreases n - i,
    {
        proof {
            assert(pattern_ok_at(ps@, i as int));
        }
        if glob_match(ps[i].as_str(), f) {
            return true;
        }
        i += 1;
    }
    proof {
        if some_pattern_matches(ps@, f@) {
            let t = choose|t: int| 0 <= t < ps@.len() && glob_match_of(ps@[t]@, f@);
            assert(!glob_match_of(ps@[t]@, f@));
        }
    }
    false
}

/// Keeps the files that pass the include and exclude pattern lists,
/// in their input order.
pub fn filter_files(
    files: Vec<String>,
    includes: &Option<Vec<String>>,
    excludes: &Option<Vec<String>>,
) -> (r: Vec<String>)
    requires
        all_patterns_ok(opt_strs(*includes)),
        all_patterns_ok(opt_strs(*excludes)),
    ensures
        r@ == passing_files(files@, opt_strs(*includes), opt_strs(*excludes)),
{
    let ghost inc = opt_strs(*includes);
    let ghost exc = opt_strs(*excludes);
    let mut r: Vec<String> = Vec::new();
    let n = files.len();
    let mut i: usize = 0;
    while i < n
        invariant
            n == files@.len(),
            i <= n,
            all_patterns_ok(inc),
            all_patterns_ok(exc),
            inc == opt_strs(*includes),
            exc == opt_strs(*excludes),
            r@ == passing_files(files@.take(i as int), inc, exc),
        decreases n - i,
    {
        proof {
            assert(files@.take(i as int + 1).drop_last() =~= files@.take(i as int));
            assert(files@.take(i as int + 1).last() == files@[i as int]);
        }
        let f = &files[i];
        let inc_ok = if includes.is_some() {
            let ps = includes.as_ref().unwrap();
            proof {
                assert(inc == Some(ps@));
                lemma_all_patterns_ok_unfold(ps@);
            }
            any_matches(ps, f.as_str())
        } else {
            true
        };
        let keep = if inc_ok {
            if excludes.is_some() {
                let ps = excludes.as_ref().unwrap();
                proof {
                    assert(exc == Some(ps@));
                    lemma_all_patterns_ok_unfold(ps@);
                }
                !any_matches(ps, f.as_str())
            } else {
                true
            }
        } else {
            false
        };
        proof {
            assert(keep == file_passes(files@[i as int]@, inc, exc));
        }
        if keep {
            let ghost r0 = r@;
            r.push(clone_str_exec(f));
            proof {
                assert(r@ =~= r0.push(files@[i as int]));
            }
        }
        i += 1;
    }
    proof {
        assert(files@.take(n as int) =~= files@);
    }
    r
}

/// The optional list of names as a sequence view.
pub open spec fn opt_strs(o: Option<Vec<String>>) -> Option<Seq<String>> {
    match o {
        None => None,
        Some(v) => Some(v@),
    }
}

/// Copies a string.
fn clone_str_exec(s: &String) -> (r: String)
    ensures
        r == s,
{
    s.clone()
}

/// Splits an optional comma-delimited pattern list and checks that
/// every segment compiles as a glob pattern; it fails exactly when
/// some segment of the splitting is malformed, before any other work.
pub fn compile_glob_list(input: &Option<String>) -> (r: Result<Option<Vec<String>>, GritError>)
    ensures
        match r {
            Ok(v) => opt_splits_into(*input, v) && all_patterns_ok(opt_strs(v)),
            Err(e) => e is FilterPattern,
        },
        r is Err <==> has_malformed_pattern(*input),
{
    if input.is_none() {
        return Ok(None);
    }
    let s = input.as_ref().unwrap();
    let segs = split_commas(s);
    let ghost seg_views = segs@.map_values(|x: String| x@);
    proof {
        assert(splits_into(s@, seg_views));
    }
    let n = segs.len();
    let mut i: usize = 0;
    while i < n
        invariant
            n == segs@.len(),
            i <= n,
            *input is Some,
            seg_views == segs@.map_values(|x: String| x@),
            splits_into(input.unwrap()@, seg_views),
            forall|t: int| 0 <= t < i ==> #[trigger] pattern_ok_at(segs@, t),
        decreases n - i,
    {
        if !check_pattern(segs[i].as_str()) {
            proof {
                assert(has_malformed_pattern(*input)) by {
                    assert(seg_views[i as int] == segs@[i as int]@);
                    assert(!glob_pattern_ok(seg_views[i as int]));
                }
            }
            return Err(GritError::FilterPattern(clone_str_exec(&segs[i])));
        }
        i += 1;
    }
    proof {
        lemma_all_patterns_ok_fold(segs@);
        assert(!has_malformed_pattern(*input)) by {
            if has_malformed_pattern(*input) {
                let v = choose|v: Seq<Seq<char>>|
                    #[trigger] splits_into(input.unwrap()@, v) && exists|t: int|
                        0 <= t < v.len() && !glob_pattern_ok(#[trigger] v[t]);
                lemma_comma_split_unique(v, seg_views);
                let t = choose|t: int| 0 <= t < v.len() && !glob_pattern_ok(#[trigger] v[t]);
                assert(v[t] == seg_views[t]);
                assert(seg_views[t] == segs@[t]@);
                assert(pattern_ok_at(segs@, t));
            }
        }
    }
    Ok(Some(segs))
}

/// Lists the repository's tracked files and keeps those that pass the
/// optional comma-delimited include and exclude glob lists.  A
/// malformed pattern fails the call before the repository is touched,
/// and every returned file passes the compiled patterns.
pub fn generate_file_list(path: &str, includes: Option<String>, excludes: Option<String>) -> (r:
    Result<Vec<String>, GritError>)
    ensures
        r matches Ok(v) ==> exists|inc: Option<Vec<String>>, exc: Option<Vec<String>>|
            {
                &&& #[trigger] opt_splits_into(includes, inc)
                &&& #[trigger] opt_splits_into(excludes, exc)
                &&& forall|k: int|
                    0 <= k < v@.len() ==> file_passes(
                        (#[trigger] v@[k])@,
                        opt_strs(inc),
                        opt_strs(exc),
                    )
            },
        has_malformed_pattern(includes) || has_malformed_pattern(excludes) ==> (r matches Err(e)
            && e is FilterPattern),
        r matches Err(e) ==> (e is FilterPattern || e is RepositoryAccess),
        r matches Err(e) && e is FilterPattern ==> (has_malformed_pattern(includes)
            || has_malformed_pattern(excludes)),
{
    let inc = compile_glob_list(&includes)?;
    let exc = compile_glob_list(&excludes)?;
    let repo = get_repo(path)?;
    let files = list_tracked_files(&repo)?;
    let kept = filter_files(files, &inc, &exc);
    proof {
        lemma_passing_files_pass(files@, opt_strs(inc), opt_strs(exc));
    }
    Ok(kept)
}

/// Every file that the filter keeps passes the patterns.
proof fn lemma_passing_files_pass(
    s: Seq<String>,
    inc: Option<Seq<String>>,
    exc: Option<Seq<String>>,
)
    ensures
        forall|k: int|
            0 <= k < passing_files(s, inc, exc).len() ==> file_passes(
                (#[trigger] passing_files(s, inc, exc)[k])@,
                inc,
                exc,
            ),
    decreases s.len(),
{
    if s.len() > 0 {
        lemma_passing_files_pass(s.drop_last(), inc, exc);
        let rest = passing_files(s.drop_last(), inc, exc);
        let whole = passing_files(s, inc, exc);
        if file_passes(s.last()@, inc, exc) {
            assert(whole == rest.push(s.last()));
            assert(forall|k: int| 0 <= k < rest.len() ==> #[trigger] whole[k] == rest[k]);
            assert(whole[whole.len() - 1] == s.last());
        }
    }
}

/// Relies on chrono: interprets a commit timestamp in the machine's
/// local time zone and returns the day number (days from the civil
/// epoch) of the local calendar date, through
/// DateTime::from_timestamp, with_timezone and num_days_from_ce.
/// `None` when the timestamp lies outside chrono's range.  The result
/// depends on the machine's time zone, so nothing more is promised.
#[verifier::external_body]
pub fn convert_git_time(seconds: i64) -> (r: Option<i64>)
{
    match chrono::DateTime::<chrono::Utc>::from_timestamp(seconds, 0) {
        None => None,
        Some(dt) => Some(
            chrono::Datelike::num_days_from_ce(&dt.with_timezone(&chrono::Local).date_naive())
                as i64,
        ),
    }
}

/// A strictly increasing sequence of day numbers: a canonical set.
pub open spec fn days_sorted_distinct(v: Seq<i64>) -> bool {
    forall|i: int, j: int| 0 <= i < j < v.len() ==> v[i] < v[j]
}

/// Inserts a day into a canonical set of days, keeping it canonical.
pub fn insert_day_distinct(v: &mut Vec<i64>, x: i64)
    requires
        days_sorted_distinct(old(v)@),
    ensures
        days_sorted_distinct(final(v)@),
        forall|d: i64| final(v)@.contains(d) <==> old(v)@.contains(d) || d == x,
        final(v)@.len() == old(v)@.len() + (if old(v)@.contains(x) {
            0int
        } else {
            1int
        }),
{
    let n = v.len();
    let mut k: usize = 0;
    while k < n && v[k] < x
        invariant
            n == v@.len(),
            k <= n,
            days_sorted_distinct(v@),
            forall|t: int| 0 <= t < k ==> v@[t] < x,
        decreases n - k,
    {
        k += 1;
    }
    if k < n && v[k] == x {
        proof {
            assert(v@.contains(x)) by {
                assert(v@[k as int] == x);
            }
        }
        return ;
    }
    let ghost old_v = v@;
    v.insert(k, x);
    proof {
        assert(v@ =~= old_v.insert(k as int, x));
        assert(forall|t: int| 0 <= t < k ==> #[trigger] v@[t] == old_v[t]);
        assert(v@[k as int] == x);
        assert(forall|t: int| k < t < v@.len() ==> #[trigger] v@[t] == old_v[t - 1]);
        assert(!old_v.contains(x)) by {
            if old_v.contains(x) {
                let t = choose|t: int| 0 <= t < old_v.len() && old_v[t] == x;
                if t < k {
                    assert(old_v[t] < x);
                } else {
                    assert(t >= k && k < old_v.len());
                    assert(old_v[k as int] <= old_v[t]);
                }
            }
        }
        assert forall|d: i64| old_v.contains(d) implies v@.contains(d) by {
            let t = choose|t: int| 0 <= t < old_v.len() && old_v[t] == d;
            if t < k {
                assert(v@[t] == d);
            } else {
                assert(v@[t + 1] == d);
            }
        }
        assert forall|d: i64| v@.contains(d) implies old_v.contains(d) || d == x by {
            let t = choose|t: int| 0 <= t < v@.len() && v@[t] == d;
            if t < k {
                assert(old_v[t] == d);
            } else if t > k {
                assert(old_v[t - 1] == d);
            }
        }
        assert(v@.contains(x)) by {
            assert(v@[k as int] == x);
        }
    }
}

/// The suffix of `s` after the last occurrence of `c`; the whole of
/// `s` when `c` does not occur.
pub open spec fn after_last(s: Seq<char>, c: char) -> Seq<char>
    decreases s.len(),
{
    if s.len() == 0 {
        s
    } else if s.last() == c {
        Seq::empty()
    } else {
        after_last(s.drop_last(), c).push(s.last())
    }
}

/// The character occurs in the text.
pub open spec fn seq_has_char(s: Seq<char>, c: char) -> bool {
    exists|i: int| 0 <= i < s.len() && s[i] == c
}

/// The final path component: what follows the last slash.
pub open spec fn file_component(s: Seq<char>) -> Seq<char> {
    after_last(s, '/')
}

/// The extension: what follows the last dot of the final component,
/// unless that dot is absent or leads the component.
pub open spec fn spec_extension(s: Seq<char>) -> Option<Seq<char>> {
    let comp = file_component(s);
    if seq_has_char(comp, '.') && comp.len() - after_last(comp, '.').len() - 1 > 0 {
        Some(after_last(comp, '.'))
    } else {
        None
    }
}

/// The stem: the final component with its extension and the dot cut
/// off; nothing when the component is empty.
pub open spec fn spec_stem(s: Seq<char>) -> Option<Seq<char>> {
    let comp = file_component(s);
    if comp.len() == 0 {
        None
    } else {
        match spec_extension(s) {
            Some(e) => Some(comp.take(comp.len() - e.len() - 1)),
            None => Some(comp),
        }
    }
}

/// `after_last` past the last occurrence is the suffix after it.
proof fn lemma_after_last_at(s: Seq<char>, c: char, k: int)
    requires
        0 <= k < s.len(),
        s[k] == c,
        forall|t: int| k < t < s.len() ==> s[t] != c,
    ensures
        after_last(s, c) == s.skip(k + 1),
        seq_has_char(s, c),
    decreases s.len(),
{
    if k == s.len() - 1 {
        assert(s.last() == c);
        assert(s.skip(k + 1) =~= Seq::empty());
    } else {
        assert(s.last() != c) by {
            assert(s[s.len() - 1] != c);
        }
        lemma_after_last_at(s.drop_last(), c, k);
        assert(s.drop_last().skip(k + 1).push(s.last()) =~= s.skip(k + 1));
    }
}

/// Without an occurrence, `after_last` is the whole text.
proof fn lemma_after_last_none(s: Seq<char>, c: char)
    requires
        forall|t: int| 0 <= t < s.len() ==> s[t] != c,
    ensures
        after_last(s, c) == s,
        !seq_has_char(s, c),
    decreases s.len(),
{
    if s.len() > 0 {
        assert(s.last() != c) by {
            assert(s[s.len() - 1] != c);
        }
        lemma_after_last_none(s.drop_last(), c);
        assert(s.drop_last().push(s.last()) =~= s);
    }
}

/// The extension of a file name, per `spec_extension`.
pub fn get_filename_extension(filename: &str) -> (r: Option<&str>)
    ensures
        match r {
            Some(e) => spec_extension(filename@) matches Some(se) && se == e@,
            None => spec_extension(filename@) is None,
        },
{
    let n = filename.unicode_len();
    let mut last_slash: Option<usize> = None;
    let mut last_dot: Option<usize> = None;
    let mut i: usize = 0;
    while i < n
        invariant
            n == filename@.len(),
            i <= n,
            match last_slash {
                Some(k) => k < i && filename@[k as int] == '/' && forall|t: int|
                    k < t < i ==> filename@[t] != '/',
                None => forall|t: int| 0 <= t < i ==> filename@[t] != '/',
            },
            match last_dot {
                Some(k) => k < i && filename@[k as int] == '.' && forall|t: int|
                    k < t < i ==> filename@[t] != '.',
                None => forall|t: int| 0 <= t < i ==> filename@[t] != '.',
            },
        decreases n - i,
    {
        let ch = filename.get_char(i);
        if ch == '/' {
            last_slash = Some(i);
        }
        if ch == '.' {
            last_dot = Some(i);
        }
        i += 1;
    }
    let cs: usize = match last_slash {
        Some(k) => k + 1,
        None => 0,
    };
    proof {
        match last_slash {
            Some(k) => lemma_after_last_at(filename@, '/', k as int),
            None => lemma_after_last_none(filename@, '/'),
        }
        assert(file_component(filename@) =~= filename@.skip(cs as int));
    }
    let ghost comp = file_component(filename@);
    match last_dot {
        None => {
            proof {
                assert(!seq_has_char(comp, '.')) by {
                    if seq_has_char(comp, '.') {
                        let t = choose|t: int| 0 <= t < comp.len() && comp[t] == '.';
                        assert(filename@[t + cs] == '.');
                    }
                }
            }
            None
        },
        Some(d) => {
            if d > cs {
                proof {
                    assert(comp[d - cs] == '.') by {
                        assert(comp[d - cs] == filename@[d as int]);
                    }
                    assert forall|t: int| d - cs < t < comp.len() implies comp[t] != '.' by {
                        assert(comp[t] == filename@[t + cs]);
                    }
                    lemma_after_last_at(comp, '.', d - cs);
                    assert(after_last(comp, '.') =~= comp.skip(d - cs + 1));
                    assert(comp.skip(d - cs + 1) =~= filename@.subrange(
                        d as int + 1,
                        n as int,
                    ));
                    assert(comp.len() - after_last(comp, '.').len() - 1 == d - cs);
                }
                let e = filename.substring_char(d + 1, n);
                Some(e)
            } else {
                proof {
                    if d >= cs {
                        assert(d == cs);
                        assert(comp[0] == '.') by {
                            assert(comp[0] == filename@[cs as int]);
                        }
                        assert forall|t: int| 0 < t < comp.len() implies comp[t] != '.' by {
                            assert(comp[t] == filename@[t + cs]);
                        }
                        lemma_after_last_at(comp, '.', 0);
                        assert(comp.len() - after_last(comp, '.').len() - 1 == 0);
                    } else {
                        assert(!seq_has_char(comp, '.')) by {
                            if seq_has_char(comp, '.') {
                                let t = choose|t: int| 0 <= t < comp.len() && comp[t] == '.';
                                assert(filename@[t + cs] == '.');
                            }
                        }
                    }
                }
                None
            }
        },
    }
}

/// The stem of a file name, per `spec_stem`.
pub fn strip_extension(filename: &str) -> (r: Option<&str>)
    ensures
        match r {
            Some(st) => spec_stem(filename@) matches Some(ss) && ss == st@,
            None => spec_stem(filename@) is None,
        },
{
    let n = filename.unicode_len();
    let mut last_slash: Option<usize> = None;
    let mut last_dot: Option<usize> = None;
    let mut i: usize = 0;
    while i < n
        invariant
            n == filename@.len(),
            i <= n,
            match last_slash {
                Some(k) => k < i && filename@[k as int] == '/' && forall|t: int|
                    k < t < i ==> filename@[t] != '/',
                None => forall|t: int| 0 <= t < i ==> filename@[t] != '/',
            },
            match last_dot {
                Some(k) => k < i && filename@[k as int] == '.' && forall|t: int|
                    k < t < i ==> filename@[t] != '.',
                None => forall|t: int| 0 <= t < i ==> filename@[t] != '.',
            },
        decreases n - i,
    {
        let ch = filename.get_char(i);
        if ch == '/' {
            last_slash = Some(i);
        }
        if ch == '.' {
            last_dot = Some(i);
        }
        i += 1;
    }
    let cs: usize = match last_slash {
        Some(k) => k + 1,
        None => 0,
    };
    proof {
        match last_slash {
            Some(k) => lemma_after_last_at(filename@, '/', k as int),
            None => lemma_after_last_none(filename@, '/'),
        }
        assert(file_component(filename@) =~= filename@.skip(cs as int));
    }
    let ghost comp = file_component(filename@);
    if cs == n {
        proof {
            assert(comp.len() == 0);
        }
        return None;
    }
    let has_ext: bool = match last_dot {
        Some(d) => d > cs,
        None => false,
    };
    if has_ext {
        let d: usize = match last_dot {
            Some(d) => d,
            None => 0,
        };
        proof {
            assert(comp[d - cs] == '.') by {
                assert(comp[d - cs] == filename@[d as int]);
            }
            assert forall|t: int| d - cs < t < comp.len() implies comp[t] != '.' by {
                assert(comp[t] == filename@[t + cs]);
            }
            lemma_after_last_at(comp, '.', d - cs);
            assert(after_last(comp, '.') =~= comp.skip(d - cs + 1));
            assert(seq_has_char(comp, '.'));
            assert(comp.len() - after_last(comp, '.').len() - 1 == d - cs);
            assert(comp.take(d - cs) =~= filename@.subrange(cs as int, d as int));
        }
        Some(filename.substring_char(cs, d))
    } else {
        proof {
            match last_dot {
                Some(d) => {
                    if d >= cs {
                        assert(d == cs);
                        assert(comp[0] == '.') by {
                            assert(comp[0] == filename@[cs as int]);
                        }
                        assert forall|t: int| 0 < t < comp.len() implies comp[t] != '.' by {
                            assert(comp[t] == filename@[t + cs]);
                        }
                        lemma_after_last_at(comp, '.', 0);
                        assert(comp.len() - after_last(comp, '.').len() - 1 == 0);
                    } else {
                        assert(!seq_has_char(comp, '.')) by {
                            if seq_has_char(comp, '.') {
                                let t = choose|t: int|
                                    0 <= t < comp.len() && comp[t] == '.';
                                assert(filename@[t + cs] == '.');
                            }
                        }
                    }
                },
                None => {
                    assert(!seq_has_char(comp, '.')) by {
                        if seq_has_char(comp, '.') {
                            let t = choose|t: int| 0 <= t < comp.len() && comp[t] == '.';
                            assert(filename@[t + cs] == '.');
                        }
                    }
                },
            }
            assert(comp =~= filename@.subrange(cs as int, n as int));
        }
        Some(filename.substring_char(cs, n))
    }
}

/// The extension of the file name, or the empty text without one.
pub open spec fn extension_or_empty(s: Seq<char>) -> Seq<char> {
    match spec_extension(s) {
        Some(e) => e,
        None => Seq::empty(),
    }
}

/// Whether the file's extension equals `ext` up to ASCII case.
pub fn check_file_type(filename: &str, ext: &str) -> (r: bool)
    ensures
        r == eq_ignore_case(ext@, extension_or_empty(filename@)),
{
    match get_filename_extension(filename) {
        Some(fe) => eq_ignore_ascii_case_str(ext, fe),
        None => {
            let empty = "";
            proof {
                reveal_strlit("");
            }
            eq_ignore_ascii_case_str(ext, empty)
        },
    }
}

/// The character of one decimal digit.
pub open spec fn digit_char(d: int) -> char {
    if d == 0 {
        '0'
    } else if d == 1 {
        '1'
    } else if d == 2 {
        '2'
    } else if d == 3 {
        '3'
    } else if d == 4 {
        '4'
    } else if d == 5 {
        '5'
    } else if d == 6 {
        '6'
    } else if d == 7 {
        '7'
    } else if d == 8 {
        '8'
    } else {
        '9'
    }
}

/// A date rendered as a ten-character year-month-day text with
/// zero-padded fields.
pub open spec fn format_date_chars(y: int, m: int, d: int) -> Seq<char> {
    seq![
        digit_char(y / 1000 % 10),
        digit_char(y / 100 % 10),
        digit_char(y / 10 % 10),
        digit_char(y % 10),
        '-',
        digit_char(m / 10),
        digit_char(m % 10),
        '-',
        digit_char(d / 10),
        digit_char(d % 10),
    ]
}

/// Appends one decimal digit to the text.
fn push_digit(s: &mut String, d: u32)
    requires
        d < 10,
    ensures
        final(s)@ == old(s)@.push(digit_char(d as int)),
{
    match d {
        0 => push_char(s, '0'),
        1 => push_char(s, '1'),
        2 => push_char(s, '2'),
        3 => push_char(s, '3'),
        4 => push_char(s, '4'),
        5 => push_char(s, '5'),
        6 => push_char(s, '6'),
        7 => push_char(s, '7'),
        8 => push_char(s, '8'),
        _ => push_char(s, '9'),
    }
}

/// Renders a date as zero-padded year-month-day.
pub fn format_date(date: crate::calendar::CivilDate) -> (r: String)
    requires
        date.valid(),
    ensures
        r@ == format_date_chars(date.year as int, date.month as int, date.day as int),
{
    let y = date.year as u32;
    let m = date.month as u32;
    let d = date.day as u32;
    let mut s = String::new();
    push_digit(&mut s, y / 1000 % 10);
    push_digit(&mut s, y / 100 % 10);
    push_digit(&mut s, y / 10 % 10);
    push_digit(&mut s, y % 10);
    push_char(&mut s, '-');
    push_digit(&mut s, m / 10);
    push_digit(&mut s, m % 10);
    push_char(&mut s, '-');
    push_digit(&mut s, d / 10);
    push_digit(&mut s, d % 10);
    proof {
        assert(s@ =~= format_date_chars(date.year as int, date.month as int, date.day as int));
    }
    s
}

/// An ASCII capital letter.
pub open spec fn is_ascii_upper(c: char) -> bool {
    65 <= c as int <= 90
}

/// Two characters are equal up to ASCII case.
pub open spec fn chars_eq_ignore_case(a: char, b: char) -> bool {
    a == b || (is_ascii_upper(a) && b as int == a as int + 32) || (is_ascii_upper(b) && a as int
        == b as int + 32)
}

/// Two texts are equal up to ASCII case.
pub open spec fn eq_ignore_case(a: Seq<char>, b: Seq<char>) -> bool {
    a.len() == b.len() && forall|i: int|
        0 <= i < a.len() ==> chars_eq_ignore_case(#[trigger] a[i], b[i])
}

/// Compares two texts ignoring ASCII case.
pub fn eq_ignore_ascii_case_str(a: &str, b: &str) -> (r: bool)
    ensures
        r == eq_ignore_case(a@, b@),
{
    let na = a.unicode_len();
    let nb = b.unicode_len();
    if na != nb {
        return false;
    }
    let mut i: usize = 0;
    while i < na
        invariant
            na == a@.len(),
            nb == b@.len(),
            na == nb,
            i <= na,
            forall|t: int| 0 <= t < i ==> chars_eq_ignore_case(#[trigger] a@[t], b@[t]),
        decreases na - i,
    {
        let ca = a.get_char(i);
        let cb = b.get_char(i);
        let ua = ca as u32;
        let ub = cb as u32;
        let same = ua == ub || (65 <= ua && ua <= 90 && ub == ua + 32) || (65 <= ub && ub <= 90
            && ua == ub + 32);
        if !same {
            proof {
                assert(!chars_eq_ignore_case(a@[i as int], b@[i as int]));
            }
            return false;
        }
        i += 1;
    }
    true
}

/// Relies on String::push: appends exactly one character to the string.
#[verifier::external_body]
fn push_char(s: &mut String, c: char)
    ensures
        final(s)@ == old(s)@.push(c),
{
    s.push(c)
}

/// Splits a comma-delimited list into its segments; `None` stays
/// `None`, and `Some` becomes the unique comma-free decomposition.
pub fn convert_string_list_to_vec(input: Option<String>) -> (r: Option<Vec<String>>)
    ensures
        opt_splits_into(input, r),
{
    match input {
        None => None,
        Some(s) => {
            let segs = split_commas(&s);
            proof {
                assert(splits_into(s@, segs@.map_values(|x: String| x@)));
            }
            Some(segs)
        },
    }
}

/// Joins segments with a comma between consecutive ones.
pub open spec fn join_commas(segs: Seq<Seq<char>>) -> Seq<char>
    decreases segs.len(),
{
    if segs.len() == 0 {
        Seq::empty()
    } else if segs.len() == 1 {
        segs[0]
    } else {
        segs[0] + seq![','] + join_commas(segs.drop_first())
    }
}

/// Splits a string at every comma.  The result is the unique non-empty
/// list of comma-free segments whose comma-join restores the input.
pub fn split_commas(s: &String) -> (r: Vec<String>)
    ensures
        r@.len() >= 1,
        forall|i: int, j: int|
            0 <= i < r@.len() && 0 <= j < r@[i]@.len() ==> #[trigger] r@[i]@[j] != ',',
        join_commas(r@.map_values(|x: String| x@)) == s@,
{
    let n = s.as_str().unicode_len();
    let mut r: Vec<String> = Vec::new();
    let mut cur: String = String::new();
    let mut i: usize = 0;
    while i < n
        invariant
            n == s@.len(),
            i <= n,
            forall|a: int, b: int|
                0 <= a < r@.len() && 0 <= b < r@[a]@.len() ==> #[trigger] r@[a]@[b] != ',',
            forall|b: int| 0 <= b < cur@.len() ==> #[trigger] cur@[b] != ',',
            join_commas(r@.map_values(|x: String| x@).push(cur@)) == s@.take(i as int),
        decreases n - i,
    {
        let ghost prev_segs = r@.map_values(|x: String| x@);
        let ghost cur0 = cur@;
        let c = s.as_str().get_char(i);
        if c == ',' {
            r.push(cur);
            cur = String::new();
            proof {
                let segs = r@.map_values(|x: String| x@);
                assert(segs =~= prev_segs.push(cur0));
                lemma_join_push(prev_segs, cur0, Seq::empty());
                assert(join_commas(prev_segs.push(cur0).push(Seq::empty())) == join_commas(
                    prev_segs.push(cur0),
                ) + seq![',']);
                assert(s@.take(i as int + 1) =~= s@.take(i as int) + seq![',']);
                assert(segs.push(cur@) =~= prev_segs.push(cur0).push(Seq::empty()));
            }
        } else {
            push_char(&mut cur, c);
            proof {
                lemma_join_last_extend(prev_segs, cur@);
                assert(cur@.drop_last() =~= cur0);
                assert(r@.map_values(|x: String| x@) =~= prev_segs);
                assert(join_commas(prev_segs.push(cur@)) == join_commas(
                    prev_segs.push(cur0),
                ).push(c));
                assert(s@.take(i as int + 1) =~= s@.take(i as int).push(c));
            }
        }
        i += 1;
    }
    let ghost final_segs = r@.map_values(|x: String| x@);
    let ghost final_cur = cur@;
    r.push(cur);
    proof {
        assert(s@.take(n as int) =~= s@);
        assert(r@.map_values(|x: String| x@) =~= final_segs.push(final_cur));
    }
    r
}

/// Extending the final segment extends the join by the same character.
proof fn lemma_join_last_extend(segs: Seq<Seq<char>>, last: Seq<char>)
    requires
        last.len() >= 1,
    ensures
        join_commas(segs.push(last)) == join_commas(segs.push(last.drop_last())).push(
            last.last(),
        ),
    decreases segs.len(),
{
    if segs.len() == 0 {
        assert(join_commas(segs.push(last)) == last);
        assert(join_commas(segs.push(last.drop_last())) == last.drop_last());
        assert(last =~= last.drop_last().push(last.last()));
    } else {
        let s1 = segs.push(last);
        let s2 = segs.push(last.drop_last());
        assert(s1.drop_first() =~= segs.drop_first().push(last));
        assert(s2.drop_first() =~= segs.drop_first().push(last.drop_last()));
        lemma_join_last_extend(segs.drop_first(), last);
        assert(join_commas(s1) == segs[0] + seq![','] + join_commas(
            segs.drop_first().push(last),
        ));
        assert(segs[0] + seq![','] + (join_commas(segs.drop_first().push(last.drop_last())).push(
            last.last(),
        )) =~= (segs[0] + seq![','] + join_commas(segs.drop_first().push(last.drop_last()))).push(
            last.last(),
        ));
    }
}

/// Lexicographic order on integer sequences: the empty sequence first,
/// otherwise by first differing element.
pub open spec fn lex_le(a: Seq<int>, b: Seq<int>) -> bool
    decreases a.len(),
{
    if a.len() == 0 {
        true
    } else if b.len() == 0 {
        false
    } else if a[0] < b[0] {
        true
    } else if a[0] > b[0] {
        false
    } else {
        lex_le(a.drop_first(), b.drop_first())
    }
}

pub proof fn lemma_lex_le_refl(a: Seq<int>)
    ensures
        lex_le(a, a),
    decreases a.len(),
{
    if a.len() > 0 {
        lemma_lex_le_refl(a.drop_first());
    }
}

pub proof fn lemma_lex_le_antisym(a: Seq<int>, b: Seq<int>)
    requires
        lex_le(a, b),
        lex_le(b, a),
    ensures
        a == b,
    decreases a.len(),
{
    if a.len() == 0 {
        assert(b.len() == 0);
        assert(a =~= b);
    } else {
        assert(b.len() > 0);
        assert(a[0] == b[0]);
        lemma_lex_le_antisym(a.drop_first(), b.drop_first());
        assert(a =~= seq![a[0]] + a.drop_first());
        assert(b =~= seq![b[0]] + b.drop_first());
    }
}

pub proof fn lemma_lex_le_trans(a: Seq<int>, b: Seq<int>, c: Seq<int>)
    requires
        lex_le(a, b),
        lex_le(b, c),
    ensures
        lex_le(a, c),
    decreases a.len(),
{
    if a.len() > 0 && b.len() > 0 && c.len() > 0 && a[0] == b[0] && b[0] == c[0] {
        lemma_lex_le_trans(a.drop_first(), b.drop_first(), c.drop_first());
    }
}

pub proof fn lemma_lex_le_total(a: Seq<int>, b: Seq<int>)
    ensures
        lex_le(a, b) || lex_le(b, a),
    decreases a.len(),
{
    if a.len() > 0 && b.len() > 0 && a[0] == b[0] {
        lemma_lex_le_total(a.drop_first(), b.drop_first());
    }
}

/// The characters of a string as mathematical integers.
pub open spec fn char_ints(s: Seq<char>) -> Seq<int> {
    s.map_values(|c: char| c as int)
}

/// The bytes of an identifier as mathematical integers.
pub open spec fn byte_ints(s: Seq<u8>) -> Seq<int> {
    s.map_values(|b: u8| b as int)
}

/// If two sequences agree on a prefix, their order is decided past it.
proof fn lemma_lex_le_skip(a: Seq<int>, b: Seq<int>, i: int)
    requires
        0 <= i <= a.len(),
        0 <= i <= b.len(),
        forall|t: int| 0 <= t < i ==> a[t] == b[t],
    ensures
        lex_le(a, b) == lex_le(a.skip(i), b.skip(i)),
    decreases i,
{
    if i > 0 {
        assert(a.len() > 0 && b.len() > 0);
        assert(a[0] == b[0]);
        lemma_lex_le_skip(a.drop_first(), b.drop_first(), i - 1);
        assert(a.drop_first().skip(i - 1) =~= a.skip(i));
        assert(b.drop_first().skip(i - 1) =~= b.skip(i));
        assert(forall|t: int| 0 <= t < i - 1 ==> a.drop_first()[t] == b.drop_first()[t]);
    } else {
        assert(a.skip(0) =~= a);
        assert(b.skip(0) =~= b);
    }
}

/// Compares two strings lexicographically by character.
pub fn str_le(a: &str, b: &str) -> (r: bool)
    ensures
        r == lex_le(char_ints(a@), char_ints(b@)),
{
    let na = a.unicode_len();
    let nb = b.unicode_len();
    let mut i: usize = 0;
    loop
        invariant
            i <= na,
            i <= nb,
            na == a@.len(),
            nb == b@.len(),
            forall|t: int| 0 <= t < i ==> a@[t] == b@[t],
        decreases na - i,
    {
        proof {
            lemma_lex_le_skip(char_ints(a@), char_ints(b@), i as int);
            assert(forall|t: int|
                0 <= t < i ==> char_ints(a@)[t] == char_ints(b@)[t]);
        }
        if i == na {
            proof {
                assert(char_ints(a@).skip(i as int).len() == 0);
            }
            return true;
        }
        if i == nb {
            proof {
                assert(char_ints(b@).skip(i as int).len() == 0);
                assert(char_ints(a@).skip(i as int).len() > 0);
            }
            return false;
        }
        let ca = a.get_char(i);
        let cb = b.get_char(i);
        proof {
            assert(char_ints(a@).skip(i as int)[0] == a@[i as int] as int);
            assert(char_ints(b@).skip(i as int)[0] == b@[i as int] as int);
        }
        if (ca as u32) < (cb as u32) {
            return true;
        }
        if (ca as u32) > (cb as u32) {
            return false;
        }
        i += 1;
    }
}

/// Content equality of two string slices.
pub fn str_eq(a: &str, b: &str) -> (r: bool)
    ensures
        r == (a@ == b@),
{
    let le1 = str_le(a, b);
    let le2 = str_le(b, a);
    proof {
        if le1 && le2 {
            lemma_lex_le_antisym(char_ints(a@), char_ints(b@));
            lemma_char_ints_injective(a@, b@);
        }
        if a@ == b@ {
            lemma_lex_le_refl(char_ints(a@));
        }
    }
    le1 && le2
}

/// Compares two identifiers (byte strings) lexicographically.
pub fn bytes_le(a: &Vec<u8>, b: &Vec<u8>) -> (r: bool)
    ensures
        r == lex_le(byte_ints(a@), byte_ints(b@)),
{
    let na = a.len();
    let nb = b.len();
    let mut i: usize = 0;
    loop
        invariant
            i <= na,
            i <= nb,
            na == a@.len(),
            nb == b@.len(),
            forall|t: int| 0 <= t < i ==> a@[t] == b@[t],
        decreases na - i,
    {
        proof {
            lemma_lex_le_skip(byte_ints(a@), byte_ints(b@), i as int);
            assert(forall|t: int|
                0 <= t < i ==> byte_ints(a@)[t] == byte_ints(b@)[t]);
        }
        if i == na {
            proof {
                assert(byte_ints(a@).skip(i as int).len() == 0);
            }
            return true;
        }
        if i == nb {
            proof {
                assert(byte_ints(b@).skip(i as int).len() == 0);
                assert(byte_ints(a@).skip(i as int).len() > 0);
            }
            return false;
        }
        let ca = a[i];
        let cb = b[i];
        proof {
            assert(byte_ints(a@).skip(i as int)[0] == a@[i as int] as int);
            assert(byte_ints(b@).skip(i as int)[0] == b@[i as int] as int);
        }
        if ca < cb {
            return true;
        }
        if ca > cb {
            return false;
        }
        i += 1;
    }
}

/// Strictly below in the lexicographic order (order and difference).
pub open spec fn lex_lt(a: Seq<int>, b: Seq<int>) -> bool {
    lex_le(a, b) && a != b
}

/// A strictly increasing sequence of strings: a canonical set of names.
pub open spec fn strs_sorted_distinct(v: Seq<String>) -> bool {
    forall|i: int, j: int|
        0 <= i < j < v.len() ==> lex_lt(
            char_ints(#[trigger] v[i]@),
            char_ints(#[trigger] v[j]@),
        )
}

/// Membership of a name in a sequence of strings, by content.
pub open spec fn str_seq_contains(v: Seq<String>, a: Seq<char>) -> bool {
    exists|i: int| 0 <= i < v.len() && v[i]@ == a
}

/// A strictly increasing sequence of identifiers: a canonical set.
pub open spec fn ids_sorted_distinct(v: Seq<Vec<u8>>) -> bool {
    forall|i: int, j: int|
        0 <= i < j < v.len() ==> lex_lt(
            byte_ints(#[trigger] v[i]@),
            byte_ints(#[trigger] v[j]@),
        )
}

/// Membership of an identifier in a sequence, by content.
pub open spec fn id_seq_contains(v: Seq<Vec<u8>>, a: Seq<u8>) -> bool {
    exists|i: int| 0 <= i < v.len() && v[i]@ == a
}

/// Distinct integer sequences stay distinct after the `char`/`u8` embedding.
pub proof fn lemma_char_ints_injective(a: Seq<char>, b: Seq<char>)
    requires
        char_ints(a) == char_ints(b),
    ensures
        a == b,
{
    assert(a.len() == char_ints(a).len());
    assert(b.len() == char_ints(b).len());
    assert forall|i: int| 0 <= i < a.len() implies a[i] == b[i] by {
        assert(char_ints(a)[i] == a[i] as int);
        assert(char_ints(b)[i] == b[i] as int);
    }
    assert(a =~= b);
}

pub proof fn lemma_byte_ints_injective(a: Seq<u8>, b: Seq<u8>)
    requires
        byte_ints(a) == byte_ints(b),
    ensures
        a == b,
{
    assert(a.len() == byte_ints(a).len());
    assert(b.len() == byte_ints(b).len());
    assert forall|i: int| 0 <= i < a.len() implies a[i] == b[i] by {
        assert(byte_ints(a)[i] == a[i] as int);
        assert(byte_ints(b)[i] == b[i] as int);
    }
    assert(a =~= b);
}

/// Inserts a name into a canonical set of names, keeping it canonical.
pub fn insert_str_distinct(v: &mut Vec<String>, x: String)
    requires
        strs_sorted_distinct(old(v)@),
    ensures
        strs_sorted_distinct(final(v)@),
        forall|a: Seq<char>|
            #[trigger] str_seq_contains(final(v)@, a) <==> str_seq_contains(old(v)@, a) || a
                == x@,
        final(v)@.len() == old(v)@.len() + (if str_seq_contains(old(v)@, x@) {
            0int
        } else {
            1int
        }),
{
    let n = v.len();
    let mut k: usize = 0;
    while k < n && !str_le(x.as_str(), v[k].as_str())
        invariant
            n == v@.len(),
            k <= n,
            strs_sorted_distinct(v@),
            forall|t: int|
                0 <= t < k ==> !lex_le(char_ints(x@), char_ints(#[trigger] v@[t]@)),
        decreases n - k,
    {
        k += 1;
    }
    if k < n {
        let same = str_le(v[k].as_str(), x.as_str());
        if same {
            proof {
                lemma_lex_le_antisym(char_ints(x@), char_ints(v@[k as int]@));
                lemma_char_ints_injective(x@, v@[k as int]@);
                assert(str_seq_contains(v@, x@)) by {
                    assert(v@[k as int]@ == x@);
                }
            }
            return ;
        }
    }
    let ghost old_v = v@;
    v.insert(k, x);
    proof {
        assert(v@ =~= old_v.insert(k as int, x));
        assert(forall|t: int| 0 <= t < k ==> #[trigger] v@[t] == old_v[t]);
        assert(v@[k as int] == x);
        assert(forall|t: int| k < t < v@.len() ==> #[trigger] v@[t] == old_v[t - 1]);
        assert(k < old_v.len() ==> lex_lt(char_ints(x@), char_ints(old_v[k as int]@))) by {
            if k < old_v.len() {
                assert(lex_le(char_ints(x@), char_ints(old_v[k as int]@)));
                if char_ints(x@) == char_ints(old_v[k as int]@) {
                    lemma_lex_le_refl(char_ints(x@));
                }
            }
        }
        assert(!str_seq_contains(old_v, x@)) by {
            if str_seq_contains(old_v, x@) {
                let t = choose|t: int| 0 <= t < old_v.len() && old_v[t]@ == x@;
                if t < k {
                    assert(!lex_le(char_ints(x@), char_ints(old_v[t]@)));
                    lemma_lex_le_refl(char_ints(x@));
                } else {
                    assert(t >= k && k < old_v.len());
                    if t > k {
                        assert(lex_lt(char_ints(old_v[k as int]@), char_ints(old_v[t]@)));
                    }
                    assert(lex_le(char_ints(x@), char_ints(old_v[k as int]@)));
                    assert(lex_le(char_ints(old_v[k as int]@), char_ints(x@))) by {
                        if t == k {
                            lemma_lex_le_refl(char_ints(x@));
                        } else {
                            lemma_lex_le_refl(char_ints(old_v[t]@));
                        }
                    }
                    lemma_lex_le_antisym(char_ints(x@), char_ints(old_v[k as int]@));
                    lemma_char_ints_injective(x@, old_v[k as int]@);
                    if t == k {
                    } else {
                        assert(old_v[k as int]@ == x@ && old_v[t]@ == x@);
                        assert(lex_lt(char_ints(old_v[k as int]@), char_ints(old_v[t]@)));
                    }
                }
            }
        }
        assert(strs_sorted_distinct(v@)) by {
            assert forall|i: int, j: int| 0 <= i < j < v@.len() implies lex_lt(
                char_ints(v@[i]@),
                char_ints(v@[j]@),
            ) by {
                if i < k && j == k {
                    assert(!lex_le(char_ints(x@), char_ints(old_v[i]@)));
                    lemma_lex_le_total(char_ints(x@), char_ints(old_v[i]@));
                    if char_ints(old_v[i]@) == char_ints(x@) {
                        lemma_lex_le_refl(char_ints(x@));
                    }
                } else if i == k && j > k {
                    assert(v@[j] == old_v[j - 1]);
                    assert(lex_lt(char_ints(x@), char_ints(old_v[j - 1]@))) by {
                        assert(lex_lt(char_ints(x@), char_ints(old_v[k as int]@)));
                        if j - 1 == k {
                        } else {
                            assert(lex_lt(char_ints(old_v[k as int]@), char_ints(old_v[j - 1]@)));
                            lemma_lex_le_trans(
                                char_ints(x@),
                                char_ints(old_v[k as int]@),
                                char_ints(old_v[j - 1]@),
                            );
                            if char_ints(x@) == char_ints(old_v[j - 1]@) {
                                lemma_lex_le_refl(char_ints(x@));
                                lemma_lex_le_antisym(
                                    char_ints(old_v[k as int]@),
                                    char_ints(old_v[j - 1]@),
                                );
                            }
                        }
                    }
                } else if i < k && j > k {
                    assert(v@[i] == old_v[i] && v@[j] == old_v[j - 1]);
                    if i < j - 1 {
                        assert(lex_lt(char_ints(old_v[i]@), char_ints(old_v[j - 1]@)));
                    } else {
                        assert(!lex_le(char_ints(x@), char_ints(old_v[i]@)));
                        lemma_lex_le_total(char_ints(x@), char_ints(old_v[i]@));
                        assert(lex_lt(char_ints(x@), char_ints(old_v[j - 1]@)));
                        lemma_lex_le_trans(
                            char_ints(old_v[i]@),
                            char_ints(x@),
                            char_ints(old_v[j - 1]@),
                        );
                        if char_ints(old_v[i]@) == char_ints(old_v[j - 1]@) {
                            lemma_lex_le_antisym(char_ints(x@), char_ints(old_v[i]@));
                        }
                    }
                }
            }
        }
        assert forall|a: Seq<char>| #[trigger]
            str_seq_contains(v@, a) implies str_seq_contains(old_v, a) || a == x@ by {
            let t = choose|t: int| 0 <= t < v@.len() && v@[t]@ == a;
            if t < k {
                assert(old_v[t]@ == a);
            } else if t > k {
                assert(old_v[t - 1]@ == a);
            }
        }
        assert forall|a: Seq<char>|
            str_seq_contains(old_v, a) || a == x@ implies #[trigger] str_seq_contains(
            v@,
            a,
        ) by {
            if a == x@ {
                assert(v@[k as int]@ == a);
            } else {
                let t = choose|t: int| 0 <= t < old_v.len() && old_v[t]@ == a;
                if t < k {
                    assert(v@[t]@ == a);
                } else {
                    assert(v@[t + 1]@ == a);
                }
            }
        }
    }
}

/// Inserts an identifier into a canonical set, keeping it canonical.
pub fn insert_id_distinct(v: &mut Vec<Vec<u8>>, x: Vec<u8>)
    requires
        ids_sorted_distinct(old(v)@),
    ensures
        ids_sorted_distinct(final(v)@),
        forall|a: Seq<u8>|
            #[trigger] id_seq_contains(final(v)@, a) <==> id_seq_contains(old(v)@, a) || a == x@,
        final(v)@.len() == old(v)@.len() + (if id_seq_contains(old(v)@, x@) {
            0int
        } else {
            1int
        }),
{
    let n = v.len();
    let mut k: usize = 0;
    while k < n && !bytes_le(&x, &v[k])
        invariant
            n == v@.len(),
            k <= n,
            ids_sorted_distinct(v@),
            forall|t: int|
                0 <= t < k ==> !lex_le(byte_ints(x@), byte_ints(#[trigger] v@[t]@)),
        decreases n - k,
    {
        k += 1;
    }
    if k < n {
        let same = bytes_le(&v[k], &x);
        if same {
            proof {
                lemma_lex_le_antisym(byte_ints(x@), byte_ints(v@[k as int]@));
                lemma_byte_ints_injective(x@, v@[k as int]@);
                assert(id_seq_contains(v@, x@)) by {
                    assert(v@[k as int]@ == x@);
                }
            }
            return ;
        }
    }
    let ghost old_v = v@;
    v.insert(k, x);
    proof {
        assert(v@ =~= old_v.insert(k as int, x));
        assert(forall|t: int| 0 <= t < k ==> #[trigger] v@[t] == old_v[t]);
        assert(v@[k as int] == x);
        assert(forall|t: int| k < t < v@.len() ==> #[trigger] v@[t] == old_v[t - 1]);
        assert(k < old_v.len() ==> lex_lt(byte_ints(x@), byte_ints(old_v[k as int]@))) by {
            if k < old_v.len() {
                assert(lex_le(byte_ints(x@), byte_ints(old_v[k as int]@)));
                if byte_ints(x@) == byte_ints(old_v[k as int]@) {
                    lemma_lex_le_refl(byte_ints(x@));
                }
            }
        }
        assert(!id_seq_contains(old_v, x@)) by {
            if id_seq_contains(old_v, x@) {
                let t = choose|t: int| 0 <= t < old_v.len() && old_v[t]@ == x@;
                if t < k {
                    assert(!lex_le(byte_ints(x@), byte_ints(old_v[t]@)));
                    lemma_lex_le_refl(byte_ints(x@));
                } else {
                    assert(k < old_v.len());
                    if t == k {
                        assert(lex_lt(byte_ints(x@), byte_ints(old_v[k as int]@)));
                    } else {
                        assert(lex_lt(byte_ints(old_v[k as int]@), byte_ints(old_v[t]@)));
                        assert(lex_le(byte_ints(x@), byte_ints(old_v[k as int]@)));
                        lemma_lex_le_refl(byte_ints(old_v[t]@));
                        lemma_lex_le_antisym(byte_ints(x@), byte_ints(old_v[k as int]@));
                    }
                }
            }
        }
        assert(ids_sorted_distinct(v@)) by {
            assert forall|i: int, j: int| 0 <= i < j < v@.len() implies lex_lt(
                byte_ints(v@[i]@),
                byte_ints(v@[j]@),
            ) by {
                if i < k && j == k {
                    assert(!lex_le(byte_ints(x@), byte_ints(old_v[i]@)));
                    lemma_lex_le_total(byte_ints(x@), byte_ints(old_v[i]@));
                    if byte_ints(old_v[i]@) == byte_ints(x@) {
                        lemma_lex_le_refl(byte_ints(x@));
                    }
                } else if i == k && j > k {
                    assert(v@[j] == old_v[j - 1]);
                    assert(lex_lt(byte_ints(x@), byte_ints(old_v[j - 1]@))) by {
                        assert(j - 1 >= k);
                        if j - 1 == k {
                        } else {
                            assert(lex_lt(byte_ints(old_v[k as int]@), byte_ints(old_v[j - 1]@)));
                            assert(lex_lt(byte_ints(x@), byte_ints(old_v[k as int]@)));
                            lemma_lex_le_trans(
                                byte_ints(x@),
                                byte_ints(old_v[k as int]@),
                                byte_ints(old_v[j - 1]@),
                            );
                            if byte_ints(x@) == byte_ints(old_v[j - 1]@) {
                                lemma_lex_le_refl(byte_ints(x@));
                                lemma_lex_le_antisym(
                                    byte_ints(old_v[k as int]@),
                                    byte_ints(old_v[j - 1]@),
                                );
                            }
                        }
                    }
                } else if i < k && j > k {
                    assert(v@[i] == old_v[i] && v@[j] == old_v[j - 1]);
                    if i < j - 1 {
                        assert(lex_lt(byte_ints(old_v[i]@), byte_ints(old_v[j - 1]@)));
                    } else {
                        assert(!lex_le(byte_ints(x@), byte_ints(old_v[i]@)));
                        lemma_lex_le_total(byte_ints(x@), byte_ints(old_v[i]@));
                        assert(lex_lt(byte_ints(x@), byte_ints(old_v[j - 1]@)));
                        lemma_lex_le_trans(
                            byte_ints(old_v[i]@),
                            byte_ints(x@),
                            byte_ints(old_v[j - 1]@),
                        );
                        if byte_ints(old_v[i]@) == byte_ints(old_v[j - 1]@) {
                            lemma_lex_le_antisym(byte_ints(x@), byte_ints(old_v[i]@));
                        }
                    }
                }
            }
        }
        assert forall|a: Seq<u8>| #[trigger]
            id_seq_contains(v@, a) implies id_seq_contains(old_v, a) || a == x@ by {
            let t = choose|t: int| 0 <= t < v@.len() && v@[t]@ == a;
            if t < k {
                assert(old_v[t]@ == a);
            } else if t > k {
                assert(old_v[t - 1]@ == a);
            }
        }
        assert forall|a: Seq<u8>|
            id_seq_contains(old_v, a) || a == x@ implies #[trigger] id_seq_contains(v@, a) by {
            if a == x@ {
                assert(v@[k as int]@ == a);
            } else {
                let t = choose|t: int| 0 <= t < old_v.len() && old_v[t]@ == a;
                if t < k {
                    assert(v@[t]@ == a);
                } else {
                    assert(v@[t + 1]@ == a);
                }
            }
        }
    }
}

/// Closing a segment and opening an empty one appends a comma to the join.
proof fn lemma_join_push(segs: Seq<Seq<char>>, seg: Seq<char>, empty: Seq<char>)
    requires
        empty.len() == 0,
    ensures
        join_commas(segs.push(seg).push(empty)) == join_commas(segs.push(seg)) + seq![','],
    decreases segs.len(),
{
    if segs.len() == 0 {
        let s = segs.push(seg).push(empty);
        assert(s.len() == 2);
        assert(s[0] == seg);
        assert(s.drop_first() =~= Seq::empty().push(empty));
        assert(join_commas(s.drop_first()) == empty);
        assert(join_commas(s) == seg + seq![','] + empty);
        assert(seg + seq![','] + empty =~= seg + seq![',']);
        assert(join_commas(segs.push(seg)) == seg);
    } else {
        let s = segs.push(seg).push(empty);
        assert(s.drop_first() =~= segs.drop_first().push(seg).push(empty));
        lemma_join_push(segs.drop_first(), seg, empty);
        assert(s[0] == segs[0]);
        assert(segs.push(seg).drop_first() =~= segs.drop_first().push(seg));
        assert(segs[0] + seq![','] + (join_commas(segs.drop_first().push(seg)) + seq![','])
            =~= (segs[0] + seq![','] + join_commas(segs.drop_first().push(seg))) + seq![',']);
    }
}

} // verus!
