//! Which log files to delete so that at most a fixed number of them remain.
//!
//! The log directory holds one JSON trace per session. Before a new one is
//! started, the JSON files are ordered newest first (files of equal age keep
//! the order the directory listed them in) and every file past the first
//! `MAX_LOG_FILES` is deleted. Files of any other kind are left alone.
use vstd::prelude::*;
use vstd::relations::injective_on;
use vstd::set_lib::{lemma_int_range, lemma_map_size, lemma_subset_equality, set_int_range};
use crate::text::chars_of;

verus! {

/// Name of the directory, under the application's data directory, that
/// holds the logs.
pub const LOG_DIR_NAME: &'static str = "logs";

/// How many log files are kept.
pub const MAX_LOG_FILES: usize = 10;

/// One entry of the log directory: its file name, and when it was last
/// modified, in nanoseconds from the Unix epoch (negative before it), if the
/// file system could tell.
pub struct LogFile {
    pub name: String,
    pub modified: Option<i128>,
}

/// A file name whose extension is `json`: it ends with `.json` and
/// something comes before that dot.
pub open spec fn is_json_name(name: Seq<char>) -> bool {
    name.len() > 5 && name.subrange(name.len() - 5, name.len() as int) == seq![
        '.',
        'j',
        's',
        'o',
        'n',
    ]
}

pub open spec fn is_json_log(f: LogFile) -> bool {
    is_json_name(f.name@)
}

/// `a` is a later modification time than `b`; an unknown time is earlier
/// than every known one.
pub open spec fn newer(a: Option<i128>, b: Option<i128>) -> bool {
    match (a, b) {
        (Some(x), Some(y)) => x > y,
        (Some(_), None) => true,
        (None, _) => false,
    }
}

/// File `j` comes before file `i` when the logs are ordered newest first,
/// ties keeping the listing order.
pub open spec fn comes_before(files: Seq<LogFile>, j: int, i: int) -> bool {
    newer(files[j].modified, files[i].modified) || (files[j].modified == files[i].modified && j
        < i)
}

/// How many JSON files among the first `n` come before file `i`.
pub open spec fn rank_upto(files: Seq<LogFile>, i: int, n: int) -> nat
    decreases n,
{
    if n <= 0 {
        0
    } else {
        rank_upto(files, i, n - 1) + if is_json_log(files[n - 1]) && comes_before(
            files,
            n - 1,
            i,
        ) {
            1nat
        } else {
            0nat
        }
    }
}

/// The position of file `i` among the JSON files ordered newest first.
pub open spec fn rank(files: Seq<LogFile>, i: int) -> nat {
    rank_upto(files, i, files.len() as int)
}

/// How many of the first `n` files are JSON files.
pub open spec fn json_count_upto(files: Seq<LogFile>, n: int) -> nat
    decreases n,
{
    if n <= 0 {
        0
    } else {
        json_count_upto(files, n - 1) + if is_json_log(files[n - 1]) {
            1nat
        } else {
            0nat
        }
    }
}

pub open spec fn json_count(files: Seq<LogFile>) -> nat {
    json_count_upto(files, files.len() as int)
}

/// File `i` is one that is deleted: a JSON file with at least `keep` JSON
/// files before it.
pub open spec fn is_removed(files: Seq<LogFile>, i: int, keep: int) -> bool {
    0 <= i < files.len() && is_json_log(files[i]) && rank(files, i) >= keep
}

pub open spec fn removed_set(files: Seq<LogFile>, keep: int) -> Set<int> {
    Set::new(|i: int| is_removed(files, i, keep))
}

pub open spec fn json_set_upto(files: Seq<LogFile>, n: int) -> Set<int> {
    Set::new(|i: int| 0 <= i < n && i < files.len() && is_json_log(files[i]))
}

/// How many files are deleted: all JSON files beyond the first `keep`.
pub open spec fn removed_count(files: Seq<LogFile>, keep: int) -> int {
    if json_count(files) > keep {
        json_count(files) - keep
    } else {
        0
    }
}

proof fn lemma_json_set_len(files: Seq<LogFile>, n: int)
    requires
        0 <= n <= files.len(),
    ensures
        json_set_upto(files, n).finite(),
        json_set_upto(files, n).len() == json_count_upto(files, n),
    decreases n,
{
    if n == 0 {
        assert(json_set_upto(files, n) =~= Set::<int>::empty());
    } else {
        lemma_json_set_len(files, n - 1);
        if is_json_log(files[n - 1]) {
            assert(json_set_upto(files, n) =~= json_set_upto(files, n - 1).insert(n - 1));
        } else {
            assert(json_set_upto(files, n) =~= json_set_upto(files, n - 1));
        }
    }
}

/// A file does not come before itself, so its rank leaves itself out.
proof fn lemma_rank_bound(files: Seq<LogFile>, i: int, n: int)
    requires
        0 <= i < files.len(),
        0 <= n <= files.len(),
    ensures
        rank_upto(files, i, n) + (if i < n && is_json_log(files[i]) {
            1int
        } else {
            0int
        }) <= json_count_upto(files, n),
    decreases n,
{
    if n > 0 {
        lemma_rank_bound(files, i, n - 1);
    }
}

/// When file `i` comes before file `j`, everything before `i` comes before
/// `j`, and `i` itself does.
proof fn lemma_rank_step(files: Seq<LogFile>, i: int, j: int, n: int)
    requires
        0 <= i < files.len(),
        0 <= j < files.len(),
        0 <= n <= files.len(),
        comes_before(files, i, j),
    ensures
        rank_upto(files, j, n) >= rank_upto(files, i, n) + (if i < n && is_json_log(files[i]) {
            1int
        } else {
            0int
        }),
    decreases n,
{
    if n > 0 {
        lemma_rank_step(files, i, j, n - 1);
    }
}

proof fn lemma_comes_before_total(files: Seq<LogFile>, i: int, j: int)
    requires
        0 <= i < files.len(),
        0 <= j < files.len(),
        i != j,
    ensures
        comes_before(files, i, j) != comes_before(files, j, i),
{
}

/// Distinct JSON files have distinct ranks, each below the number of JSON
/// files.
proof fn lemma_rank_injective(files: Seq<LogFile>)
    ensures
        forall|a: int, b: int|
            #![trigger rank(files, a), rank(files, b)]
            json_set_upto(files, files.len() as int).contains(a) && json_set_upto(
                files,
                files.len() as int,
            ).contains(b) && rank(files, a) == rank(files, b) ==> a == b,
        forall|i: int|
            #![trigger rank(files, i)]
            json_set_upto(files, files.len() as int).contains(i) ==> rank(files, i) < json_count(
                files,
            ),
{
    let n = files.len() as int;
    let js = json_set_upto(files, n);
    assert forall|i: int| js.contains(i) implies #[trigger] rank(files, i) < json_count(files) by {
        lemma_rank_bound(files, i, n);
    }
    assert forall|a: int, b: int|
        #![trigger rank(files, a), rank(files, b)]
        js.contains(a) && js.contains(b) && rank(files, a) == rank(files, b) implies a == b by {
        if a != b {
            lemma_comes_before_total(files, a, b);
            if comes_before(files, a, b) {
                lemma_rank_step(files, a, b, n);
            } else {
                lemma_rank_step(files, b, a, n);
            }
        }
    }
}

/// Exactly `removed_count` files are deleted.
pub proof fn lemma_removed_count(files: Seq<LogFile>, keep: int)
    requires
        0 <= keep,
    ensures
        removed_set(files, keep).finite(),
        removed_set(files, keep).len() == removed_count(files, keep),
{
    let n = files.len() as int;
    let m = json_count(files) as int;
    let js = json_set_upto(files, n);
    let f = |i: int| rank(files, i) as int;
    lemma_json_set_len(files, n);
    lemma_rank_injective(files);
    assert(injective_on(f, js)) by {
        assert forall|a: int, b: int|
            js.contains(a) && js.contains(b) && #[trigger] f(a) == #[trigger] f(b) implies a == b by {
            assert(rank(files, a) == rank(files, b));
        }
    }
    // The ranks of the JSON files are exactly 0, 1, ..., m - 1.
    let ranks = js.map(f);
    lemma_map_size(js, ranks, f);
    lemma_int_range(0, m);
    assert(ranks.subset_of(set_int_range(0, m)));
    lemma_subset_equality(ranks, set_int_range(0, m));
    let d = removed_set(files, keep);
    assert(d.subset_of(js));
    vstd::set_lib::lemma_set_subset_finite(js, d);
    assert(injective_on(f, d));
    if keep <= m {
        let target = set_int_range(keep, m);
        assert forall|r: int| target.contains(r) implies #[trigger] d.map(f).contains(r) by {
            assert(ranks.contains(r));
            let i = choose|i: int| js.contains(i) && f(i) == r;
            assert(d.contains(i));
        }
        assert(d.map(f) =~= target);
        lemma_int_range(keep, m);
        lemma_map_size(d, target, f);
    } else {
        assert forall|i: int| !d.contains(i) by {
            if d.contains(i) {
                assert(js.contains(i));
                assert(rank(files, i) < m);
            }
        }
        assert(d =~= Set::<int>::empty());
    }
}

/// Every JSON file that is kept is at least as new as every one that is
/// deleted.
pub proof fn lemma_kept_logs_are_newest(files: Seq<LogFile>, keep: int, kept: int, gone: int)
    requires
        0 <= kept < files.len(),
        is_json_log(files[kept]),
        !is_removed(files, kept, keep),
        is_removed(files, gone, keep),
    ensures
        !newer(files[gone].modified, files[kept].modified),
{
    let n = files.len() as int;
    lemma_comes_before_total(files, kept, gone);
    if comes_before(files, gone, kept) {
        lemma_rank_step(files, gone, kept, n);
    }
}

/// Whether a file name has the extension `json`.
pub fn is_json_log_name(name: &str) -> (r: bool)
    ensures
        r == is_json_name(name@),
{
    let chars = chars_of(name);
    let n = chars.len();
    if n <= 5 {
        return false;
    }
    let r = chars[n - 5] == '.' && chars[n - 4] == 'j' && chars[n - 3] == 's' && chars[n - 2]
        == 'o' && chars[n - 1] == 'n';
    proof {
        let tail = name@.subrange(n - 5, n as int);
        let json = seq!['.', 'j', 's', 'o', 'n'];
        if r {
            assert(tail =~= json);
        } else {
            assert(exists|k: int| 0 <= k < 5 && tail[k] != json[k]);
        }
    }
    r
}

/// File `j` (modified at `tj`) comes before file `i` (modified at `ti`).
fn before_in_order(tj: &Option<i128>, ti: &Option<i128>, j: usize, i: usize) -> (r: bool)
    ensures
        r == (newer(*tj, *ti) || (*tj == *ti && j < i)),
{
    match (tj, ti) {
        (Some(x), Some(y)) => *x > *y || (*x == *y && j < i),
        (Some(_), None) => true,
        (None, Some(_)) => false,
        (None, None) => j < i,
    }
}

/// The indices, in increasing order, of the log files to delete so that
/// only the `keep` newest JSON files remain.
pub fn logs_to_remove(files: &Vec<LogFile>, keep: usize) -> (r: Vec<usize>)
    ensures
        forall|k: int| 0 <= k < r.len() ==> is_removed(files@, #[trigger] r@[k] as int, keep as int),
        forall|i: int| is_removed(files@, i, keep as int) ==> r@.contains(i as usize),
        forall|a: int, b: int| 0 <= a < b < r.len() ==> r@[a] < r@[b],
        r.len() == removed_count(files@, keep as int),
{
    let n = files.len();
    let mut json: Vec<bool> = Vec::new();
    for i in 0..n
        invariant
            n == files.len(),
            json.len() == i,
            forall|k: int| 0 <= k < i ==> json@[k] == is_json_log(#[trigger] files@[k]),
    {
        json.push(is_json_log_name(files[i].name.as_str()));
    }
    let mut r: Vec<usize> = Vec::new();
    for i in 0..n
        invariant
            n == files.len(),
            json.len() == n,
            forall|k: int| 0 <= k < n ==> json@[k] == is_json_log(#[trigger] files@[k]),
            forall|k: int| 0 <= k < r.len() ==> #[trigger] r@[k] < i,
            forall|k: int| 0 <= k < r.len() ==> is_removed(files@, #[trigger] r@[k] as int, keep as int),
            forall|k: int| 0 <= k < i && is_removed(files@, k, keep as int) ==> r@.contains(k as usize),
            forall|a: int, b: int| 0 <= a < b < r.len() ==> r@[a] < r@[b],
    {
        if json[i] {
            let mut count: usize = 0;
            for j in 0..n
                invariant
                    n == files.len(),
                    i < n,
                    json.len() == n,
                    forall|k: int| 0 <= k < n ==> json@[k] == is_json_log(#[trigger] files@[k]),
                    count == rank_upto(files@, i as int, j as int),
                    count <= j,
            {
                if json[j] && before_in_order(&files[j].modified, &files[i].modified, j, i) {
                    count = count + 1;
                }
            }
            if count >= keep {
                let ghost before = r@;
                r.push(i);
                proof {
                    assert forall|k: int| 0 <= k < i + 1 && is_removed(files@, k, keep as int) implies r@.contains(k as usize) by {
                        if k < i {
                            let w = choose|w: int| 0 <= w < before.len() && before[w] == k as usize;
                            assert(r@[w] == k as usize);
                        } else {
                            assert(r@[r.len() - 1] == k as usize);
                        }
                    }
                }
            }
        }
    }
    proof {
        let ints = r@.map_values(|x: usize| x as int);
        assert(ints.no_duplicates()) by {
            assert forall|a: int, b: int| 0 <= a < ints.len() && 0 <= b < ints.len() && a != b implies ints[a] != ints[b] by {
                if a < b {
                    assert(r@[a] < r@[b]);
                } else {
                    assert(r@[b] < r@[a]);
                }
            }
        }
        ints.unique_seq_to_set();
        assert forall|i: int| #[trigger] ints.to_set().contains(i) == removed_set(files@, keep as int).contains(i) by {
            if ints.to_set().contains(i) {
                let w = choose|w: int| 0 <= w < ints.len() && ints[w] == i;
                assert(r@[w] as int == i);
            }
            if removed_set(files@, keep as int).contains(i) {
                assert(r@.contains(i as usize));
                let w = choose|w: int| 0 <= w < r.len() && r@[w] == i as usize;
                assert(ints[w] == i);
                assert(ints.contains(i));
            }
        }
        assert(ints.to_set() =~= removed_set(files@, keep as int));
        lemma_removed_count(files@, keep as int);
    }
    r
}

} // verus!
