//! Jobs: files that are to be written, which of them are needed, and in which
//! order they are shown and applied.

use crate::order::{lex_less, Relation};
use crate::paths::{
    compare_paths, component_less, components, lemma_path_order, path_less, Component,
};
use crate::text::decimal_of;
use vstd::prelude::*;
use vstd::slice::slice_to_vec;
use vstd::string::{StrSliceExecFns, StringExecFns};
use vstd::utf8::encode_utf8;

verus! {

/// The permission bits that let a file be executed.
pub const EXECUTE_BITS: u32 = 0o111;

/// A file with these permissions can be executed by someone.
pub open spec fn allows_execution(mode: u32) -> bool {
    mode & EXECUTE_BITS != 0
}

/// A file to be written.
#[derive(Debug)]
pub struct Job {
    /// Where the file stands.
    pub path: Vec<u8>,
    /// What it holds now, where it exists.
    pub old_content: Option<Vec<u8>>,
    /// What it is to hold.
    pub new_content: Vec<u8>,
    /// Whether it is to be executable.
    pub executable: bool,
}

impl Job {
    /// Applying the job would change nothing, where `mode` are the file's
    /// present permissions, if they can be read.
    pub open spec fn changes_nothing(self, mode: Option<u32>) -> bool {
        match self.old_content {
            Some(old) => {
                let executable_now = match mode {
                    Some(bits) => allows_execution(bits),
                    None => false,
                };
                old@ == self.new_content@ && executable_now == self.executable
            },
            None => self.new_content@.len() == 0 && !self.executable,
        }
    }

    /// The permissions of the written file, where it had `mode` once its
    /// content was written.
    pub open spec fn applied_mode(self, mode: u32) -> u32 {
        if self.executable {
            mode | EXECUTE_BITS
        } else {
            mode
        }
    }

    /// Whether applying the job would change nothing. `mode` are the
    /// permissions of the file at its path, if they can be read.
    pub fn is_noop(&self, mode: Option<u32>) -> (res: bool)
        ensures
            res == self.changes_nothing(mode),
            self.old_content is None ==> res == (self.new_content@.len() == 0 && !self.executable),
            self.old_content matches Some(old) ==> res == (old@ == self.new_content@
                && self.executable == (mode matches Some(bits) && bits & 0o111 != 0)),
    {
        match &self.old_content {
            Some(old) => {
                if !same_bytes(self.new_content.as_slice(), old.as_slice()) {
                    return false;
                }
                let executable_now = match mode {
                    Some(bits) => bits & EXECUTE_BITS != 0,
                    None => false,
                };
                executable_now == self.executable
            },
            None => self.new_content.len() == 0 && !self.executable,
        }
    }

    /// The permissions to set once the content has been written, where `mode`
    /// are those that the file has then; nothing where they stay.
    pub fn mode_to_set(&self, mode: u32) -> (res: Option<u32>)
        ensures
            res is Some <==> self.executable,
            res matches Some(bits) ==> bits == self.applied_mode(mode),
            res == (if self.executable {
                Some(mode | 0o111)
            } else {
                None
            }),
    {
        if self.executable {
            Some(mode | EXECUTE_BITS)
        } else {
            None
        }
    }
}

impl Job {
    /// The command that stages the written file, as bytes: its last word is a
    /// path.
    pub fn stage_command(&self) -> (res: Vec<Vec<u8>>)
        ensures
            res@.map_values(|w: Vec<u8>| w@) == seq![
                encode_utf8("git"@),
                encode_utf8("add"@),
                self.path@,
            ],
    {
        let mut res: Vec<Vec<u8>> = Vec::new();
        res.push("git".as_bytes_vec());
        res.push("add".as_bytes_vec());
        res.push(slice_to_vec(self.path.as_slice()));
        assert(res@.map_values(|w: Vec<u8>| w@) =~= seq![
            encode_utf8("git"@),
            encode_utf8("add"@),
            self.path@,
        ]);
        res
    }
}

impl Clone for Job {
    fn clone(&self) -> (res: Self)
        ensures
            res.path@ == self.path@,
            res.old_content is Some <==> self.old_content is Some,
            res.old_content is Some ==> res.old_content->0@ == self.old_content->0@,
            res.new_content@ == self.new_content@,
            res.executable == self.executable,
    {
        Job {
            path: slice_to_vec(self.path.as_slice()),
            old_content: match &self.old_content {
                Some(old) => Some(slice_to_vec(old.as_slice())),
                None => None,
            },
            new_content: slice_to_vec(self.new_content.as_slice()),
            executable: self.executable,
        }
    }
}

/// Once a job has been applied, a job that would write the same changes
/// nothing, unless the file may be executed and is not meant to be: applying a
/// job never takes permissions away. `mode` are the permissions that the file
/// had when its content was written.
pub proof fn lemma_applied_job_is_noop(job: Job, again: Job, mode: u32)
    requires
        again.old_content matches Some(now) && now@ == job.new_content@,
        again.new_content@ == job.new_content@,
        again.executable == job.executable,
    ensures
        again.changes_nothing(Some(job.applied_mode(mode))) <==> (job.executable
            || !allows_execution(mode)),
{
    assert((mode | 0o111) & 0o111 != 0) by (bit_vector);
}

fn same_bytes(a: &[u8], b: &[u8]) -> (res: bool)
    ensures
        res == (a@ == b@),
{
    if a.len() != b.len() {
        return false;
    }
    for i in 0..a.len()
        invariant
            a.len() == b.len(),
            forall|j: int| 0 <= j < i ==> a@[j] == b@[j],
    {
        if a[i] != b[i] {
            return false;
        }
    }
    assert(a@ =~= b@);
    true
}

/// A job that is still to be applied, given the permissions of its file.
pub open spec fn is_pending(job: (Job, Option<u32>)) -> bool {
    !job.0.changes_nothing(job.1)
}

/// The jobs that would change something, in the given order. Each comes with
/// the permissions of the file at its path, if they can be read.
pub fn pending_jobs(jobs: Vec<(Job, Option<u32>)>) -> (res: Vec<Job>)
    ensures
        res@ == jobs@.filter(|j: (Job, Option<u32>)| is_pending(j)).map_values(
            |j: (Job, Option<u32>)| j.0,
        ),
{
    let mut res: Vec<Job> = Vec::new();
    let mut rest = jobs;
    let ghost keep = |j: (Job, Option<u32>)| is_pending(j);
    let ghost job = |j: (Job, Option<u32>)| j.0;
    while rest.len() > 0
        invariant
            keep == (|j: (Job, Option<u32>)| is_pending(j)),
            job == (|j: (Job, Option<u32>)| j.0),
            rest@.filter(keep).map_values(job) + res@ == jobs@.filter(keep).map_values(job),
        decreases rest.len(),
    {
        let ghost before = rest@;
        let ghost later = res@;
        match rest.pop() {
            Some((next, mode)) => {
                assert(rest@ == before.drop_last());
                reveal(Seq::filter);
                if !next.is_noop(mode) {
                    res.insert(0, next);
                    assert(before.filter(keep) == rest@.filter(keep).push((next, mode)));
                    assert(before.filter(keep).map_values(job) + later =~= rest@.filter(
                        keep,
                    ).map_values(job) + res@);
                }
            },
            None => {},
        }
    }
    assert(rest@.filter(keep) =~= Seq::empty()) by {
        reveal(Seq::filter);
    }
    assert(res@ =~= jobs@.filter(keep).map_values(job));
    res
}

/// `sorted` are the jobs of `jobs` in the order of their paths: `from[i]` is
/// where the job at `i` stood before, and jobs with equal paths keep their
/// order.
pub open spec fn is_stable_sort(sorted: Seq<Job>, jobs: Seq<Job>, from: Seq<int>) -> bool {
    &&& sorted.len() == jobs.len()
    &&& from.len() == jobs.len()
    &&& forall|i: int|
        0 <= i < from.len() ==> 0 <= #[trigger] from[i] < jobs.len() && sorted[i] == jobs[from[i]]
    &&& forall|i: int, j: int| 0 <= i < j < from.len() ==> #[trigger] from[i] != #[trigger] from[j]
    &&& forall|i: int, j: int|
        0 <= i < j < sorted.len() ==> goes_before(
            #[trigger] sorted[i],
            from[i],
            #[trigger] sorted[j],
            from[j],
        )
}

/// A job goes before another: its path is less, or the paths are equal and it
/// stood before the other already.
pub open spec fn goes_before(a: Job, a_index: int, b: Job, b_index: int) -> bool {
    path_less(a.path@, b.path@) || (components(a.path@) == components(b.path@) && a_index
        < b_index)
}

proof fn lemma_reaches_all(from: Seq<int>, n: int, index: int)
    requires
        from.len() == n,
        forall|i: int| 0 <= i < n ==> 0 <= #[trigger] from[i] < n,
        forall|i: int, j: int| 0 <= i < j < n ==> #[trigger] from[i] != #[trigger] from[j],
        0 <= index < n,
    ensures
        exists|i: int| 0 <= i < n && #[trigger] from[i] == index,
{
    let range = vstd::set_lib::set_int_range(0, n);
    assert(from.no_duplicates());
    from.unique_seq_to_set();
    vstd::set_lib::lemma_int_range(0, n);
    assert forall|x: int| from.to_set().contains(x) implies range.contains(x) by {
        let i = choose|i: int| 0 <= i < from.len() && from[i] == x;
        assert(0 <= from[i] < n);
    }
    assert(from.to_set().subset_of(range));
    vstd::set_lib::lemma_subset_equality(from.to_set(), range);
    assert(from.to_set().contains(index));
}

proof fn lemma_sorted_prefix(
    a: Seq<Job>,
    from_a: Seq<int>,
    b: Seq<Job>,
    from_b: Seq<int>,
    jobs: Seq<Job>,
    k: int,
)
    requires
        is_stable_sort(a, jobs, from_a),
        is_stable_sort(b, jobs, from_b),
        0 <= k <= jobs.len(),
    ensures
        from_a.take(k) == from_b.take(k),
    decreases k,
{
    if k > 0 {
        let at = k - 1;
        lemma_sorted_prefix(a, from_a, b, from_b, jobs, at);
        let x = from_a[at];
        let y = from_b[at];
        if x != y {
            let n = jobs.len() as int;
            lemma_reaches_all(from_b, n, x);
            lemma_reaches_all(from_a, n, y);
            let m = choose|i: int| 0 <= i < n && #[trigger] from_b[i] == x;
            let l = choose|i: int| 0 <= i < n && #[trigger] from_a[i] == y;
            assert(m > at) by {
                if m < at {
                    assert(from_a.take(at)[m] == from_b.take(at)[m]);
                    assert(from_a[m] != from_a[at]);
                }
            }
            assert(l > at) by {
                if l < at {
                    assert(from_a.take(at)[l] == from_b.take(at)[l]);
                    assert(from_b[l] != from_b[at]);
                }
            }
            assert(goes_before(b[at], from_b[at], b[m], from_b[m]));
            assert(goes_before(a[at], from_a[at], a[l], from_a[l]));
            assert(goes_before(jobs[y], y, jobs[x], x));
            assert(goes_before(jobs[x], x, jobs[y], y));
            lemma_path_order();
            let less = |p: Seq<Component>, q: Seq<Component>|
                lex_less(|c: Component, d: Component| component_less(c, d), p, q);
            let p = components(jobs[x].path@);
            let q = components(jobs[y].path@);
            assert(!less(p, p));
            if less(p, q) && less(q, p) {
                assert(less(p, p));
            }
        }
        assert(from_a.take(k) =~= from_a.take(at).push(x));
        assert(from_b.take(k) =~= from_b.take(at).push(y));
    }
}

/// Jobs have one order: two sortings of the same jobs are equal.
pub proof fn lemma_stable_sort_unique(
    a: Seq<Job>,
    from_a: Seq<int>,
    b: Seq<Job>,
    from_b: Seq<int>,
    jobs: Seq<Job>,
)
    requires
        is_stable_sort(a, jobs, from_a),
        is_stable_sort(b, jobs, from_b),
    ensures
        a == b,
{
    let n = jobs.len() as int;
    lemma_sorted_prefix(a, from_a, b, from_b, jobs, n);
    assert(from_a.take(n) =~= from_a);
    assert(from_b.take(n) =~= from_b);
    assert forall|i: int| 0 <= i < n implies a[i] == b[i] by {
        assert(from_a[i] == from_b[i]);
    }
    assert(a =~= b);
}

fn place_for(sorted: &Vec<Job>, job: &Job) -> (res: usize)
    requires
        forall|i: int, j: int|
            0 <= i < j < sorted.len() ==> !path_less(
                (#[trigger] sorted@[j]).path@,
                (#[trigger] sorted@[i]).path@,
            ),
    ensures
        res <= sorted.len(),
        forall|i: int| 0 <= i < res ==> path_less((#[trigger] sorted@[i]).path@, job.path@),
        forall|i: int|
            res <= i < sorted.len() ==> path_less(job.path@, (#[trigger] sorted@[i]).path@)
                || components(job.path@) == components(sorted@[i].path@),
{
    let ghost less = |a: Seq<Component>, b: Seq<Component>|
        lex_less(|x: Component, y: Component| component_less(x, y), a, b);
    let mut at: usize = 0;
    while at < sorted.len() && compare_paths(sorted[at].path.as_slice(), job.path.as_slice())
        == Relation::Before
        invariant
            at <= sorted.len(),
            forall|i: int| 0 <= i < at ==> path_less((#[trigger] sorted@[i]).path@, job.path@),
        decreases sorted.len() - at,
    {
        at = at + 1;
    }
    proof {
        lemma_path_order();
        let wanted = components(job.path@);
        assert forall|i: int| at <= i < sorted.len() implies path_less(
            job.path@,
            (#[trigger] sorted@[i]).path@,
        ) || wanted == components(sorted@[i].path@) by {
            let here = components(sorted@[at as int].path@);
            let there = components(sorted@[i].path@);
            assert(less(wanted, here) || wanted == here || less(here, wanted));
            assert(less(here, there) || here == there || less(there, here));
            if i > at {
                assert(!path_less(sorted@[i].path@, sorted@[at as int].path@));
                if less(wanted, here) && less(here, there) {
                    assert(less(wanted, there));
                }
            }
        }
    }
    at
}

/// The jobs in the order of their paths. Jobs with equal paths keep their order.
pub fn sort_jobs(jobs: Vec<Job>) -> (res: Vec<Job>)
    ensures
        exists|from: Seq<int>| is_stable_sort(res@, jobs@, from),
{
    let mut res: Vec<Job> = Vec::new();
    let mut rest = jobs;
    let ghost mut from: Seq<int> = seq![];
    let ghost less = |a: Seq<Component>, b: Seq<Component>|
        lex_less(|x: Component, y: Component| component_less(x, y), a, b);
    while rest.len() > 0
        invariant
            less == (|a: Seq<Component>, b: Seq<Component>|
                lex_less(|x: Component, y: Component| component_less(x, y), a, b)),
            rest.len() <= jobs.len(),
            rest@ == jobs@.take(rest@.len() as int),
            res.len() == jobs.len() - rest.len(),
            from.len() == res.len(),
            forall|i: int|
                0 <= i < from.len() ==> rest.len() <= #[trigger] from[i] < jobs.len() && res@[i]
                    == jobs@[from[i]],
            forall|i: int, j: int|
                0 <= i < j < from.len() ==> #[trigger] from[i] != #[trigger] from[j],
            forall|i: int, j: int|
                0 <= i < j < res.len() ==> goes_before(
                    #[trigger] res@[i],
                    from[i],
                    #[trigger] res@[j],
                    from[j],
                ),
        decreases rest.len(),
    {
        let ghost before = res@;
        let ghost known = from;
        match rest.pop() {
            Some(job) => {
                let ghost index = rest.len() as int;
                proof {
                    lemma_path_order();
                    assert forall|i: int, j: int| 0 <= i < j < res.len() implies !path_less(
                        (#[trigger] res@[j]).path@,
                        (#[trigger] res@[i]).path@,
                    ) by {
                        let a = components(res@[i].path@);
                        let b = components(res@[j].path@);
                        assert(goes_before(res@[i], from[i], res@[j], from[j]));
                        if less(a, b) && less(b, a) {
                            assert(less(a, a));
                        }
                        assert(!less(a, a));
                    }
                }
                let at = place_for(&res, &job);
                res.insert(at, job);
                proof {
                    from = known.insert(at as int, index);
                    assert(res@ == before.insert(at as int, job));
                    assert forall|i: int| 0 <= i < from.len() implies rest.len()
                        <= #[trigger] from[i] < jobs.len() && res@[i] == jobs@[from[i]] by {
                        if i < at {
                            assert(from[i] == known[i]);
                        } else if i > at {
                            assert(from[i] == known[i - 1]);
                        }
                    }
                    assert forall|i: int, j: int| 0 <= i < j < from.len() implies #[trigger] from[i]
                        != #[trigger] from[j] by {
                        let k = if i < at { i } else { i - 1 };
                        let l = if j < at { j } else { j - 1 };
                        if i != at {
                            assert(from[i] == known[k]);
                        }
                        if j != at {
                            assert(from[j] == known[l]);
                        }
                    }
                    assert forall|i: int, j: int| 0 <= i < j < res.len() implies goes_before(
                        #[trigger] res@[i],
                        from[i],
                        #[trigger] res@[j],
                        from[j],
                    ) by {
                        if i == at {
                            assert(res@[j] == before[j - 1] && from[j] == known[j - 1]);
                        } else if j == at {
                            assert(res@[i] == before[i] && from[i] == known[i]);
                        } else {
                            let k = if i < at { i } else { i - 1 };
                            let l = if j < at { j } else { j - 1 };
                            assert(res@[i] == before[k] && from[i] == known[k]);
                            assert(res@[j] == before[l] && from[j] == known[l]);
                            assert(goes_before(before[k], known[k], before[l], known[l]));
                        }
                    }
                }
            },
            None => {},
        }
    }
    assert(is_stable_sort(res@, jobs@, from));
    res
}

/// The line that announces how many files are written.
pub open spec fn announcement(count: nat) -> Seq<char> {
    "The following "@ + crate::text::decimal(count) + " file"@ + (if count == 1 {
        ""@
    } else {
        "s"@
    }) + " will be updated/generated:"@
}

/// The line that announces how many files are written.
pub fn announce(count: usize) -> (res: String)
    ensures
        res@ == announcement(count as nat),
{
    let mut res = "The following ".to_owned();
    res.append(decimal_of(count as u64).as_str());
    res.append(" file");
    res.append(
        if count == 1 {
            ""
        } else {
            "s"
        },
    );
    res.append(" will be updated/generated:");
    res
}

/// Of a file that does not exist, a job changes nothing if and only if it would
/// write nothing and not make it executable, whatever permissions are told.
pub proof fn lemma_missing_file(job: Job, mode: Option<u32>)
    requires
        job.old_content is None,
    ensures
        job.changes_nothing(mode) <==> job.new_content@.len() == 0 && !job.executable,
{
}

/// Of a file that exists, a job changes nothing if and only if the file holds
/// what it is to hold and may be executed exactly where it is to be. A file
/// whose permissions cannot be read counts as one that may not be.
pub proof fn lemma_existing_file(job: Job, old: Vec<u8>, mode: u32)
    requires
        job.old_content == Some(old),
    ensures
        old@ != job.new_content@ ==> !job.changes_nothing(Some(mode)) && !job.changes_nothing(None),
        old@ == job.new_content@ ==> {
            &&& job.changes_nothing(None) <==> !job.executable
            &&& job.changes_nothing(Some(mode)) <==> job.executable == (mode & 0o111 != 0)
        },
{
}

/// Applying a job adds the three permissions to execute where the file is to be
/// executable, and otherwise keeps the permissions; it takes none away.
pub proof fn lemma_applied_mode(job: Job, mode: u32)
    ensures
        job.executable ==> job.applied_mode(mode) == mode | 0o111,
        !job.executable ==> job.applied_mode(mode) == mode,
        job.applied_mode(mode) & mode == mode,
        allows_execution(mode) <==> mode & 0o111 != 0,
{
    assert((mode | 0o111) & mode == mode) by (bit_vector);
    assert(mode & mode == mode) by (bit_vector);
}

/// A job is pending if and only if it would change something, so of a further
/// job the pending ones are those of the others, and behind them that one.
pub proof fn lemma_pending(jobs: Seq<(Job, Option<u32>)>, next: (Job, Option<u32>))
    ensures
        is_pending(next) <==> !next.0.changes_nothing(next.1),
        jobs.push(next).filter(|j: (Job, Option<u32>)| is_pending(j)) == (
        if next.0.changes_nothing(next.1) {
            jobs.filter(|j: (Job, Option<u32>)| is_pending(j))
        } else {
            jobs.filter(|j: (Job, Option<u32>)| is_pending(j)).push(next)
        }),
{
    reveal(Seq::filter);
    assert(jobs.push(next).drop_last() =~= jobs);
}

/// Sorting keeps every job, once, and puts them in the order of their paths;
/// of two with the same path the earlier one stays before the other.
pub proof fn lemma_stable_sort(sorted: Seq<Job>, jobs: Seq<Job>, from: Seq<int>)
    requires
        is_stable_sort(sorted, jobs, from),
    ensures
        sorted.len() == jobs.len(),
        forall|i: int|
            0 <= i < sorted.len() ==> 0 <= #[trigger] from[i] < jobs.len() && sorted[i]
                == jobs[from[i]],
        forall|k: int| 0 <= k < jobs.len() ==> #[trigger] from.contains(k),
        forall|i: int, j: int|
            0 <= i < j < sorted.len() ==> !path_less(
                (#[trigger] sorted[j]).path@,
                (#[trigger] sorted[i]).path@,
            ),
        forall|i: int, j: int|
            0 <= i < j < sorted.len() && components((#[trigger] sorted[i]).path@) == components(
                (#[trigger] sorted[j]).path@,
            ) ==> from[i] < from[j],
{
    let less = |p: Seq<Component>, q: Seq<Component>|
        lex_less(|c: Component, d: Component| component_less(c, d), p, q);
    lemma_path_order();
    assert forall|k: int| 0 <= k < jobs.len() implies #[trigger] from.contains(k) by {
        lemma_reaches_all(from, jobs.len() as int, k);
    }
    assert forall|i: int, j: int| 0 <= i < j < sorted.len() implies !path_less(
        (#[trigger] sorted[j]).path@,
        (#[trigger] sorted[i]).path@,
    ) && (components(sorted[i].path@) == components(sorted[j].path@) ==> from[i] < from[j]) by {
        let p = components(sorted[i].path@);
        let q = components(sorted[j].path@);
        assert(goes_before(sorted[i], from[i], sorted[j], from[j]));
        assert(!less(p, p));
        if less(p, q) && less(q, p) {
            assert(less(p, p));
        }
    }
}

/// One file is announced in the singular, any other number in the plural.
pub proof fn lemma_announcement(count: nat)
    ensures
        count == 1 ==> announcement(count) == "The following 1 file will be updated/generated:"@,
        count != 1 ==> announcement(count) == "The following "@ + crate::text::decimal(count)
            + " files will be updated/generated:"@,
{
    reveal_strlit("The following 1 file will be updated/generated:");
    reveal_strlit("The following ");
    reveal_strlit(" file");
    reveal_strlit("");
    reveal_strlit("s");
    reveal_strlit(" will be updated/generated:");
    reveal_strlit(" files will be updated/generated:");
    if count == 1 {
        assert(crate::text::decimal(1) =~= seq!['1']);
        assert(announcement(1) =~= "The following 1 file will be updated/generated:"@);
    } else {
        assert(announcement(count) =~= "The following "@ + crate::text::decimal(count)
            + " files will be updated/generated:"@);
    }
}

} // verus!
