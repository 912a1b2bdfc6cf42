//! Planning the scan: what the search for repositories does with each path, and how many commits
//! each parallel worker of the history scan takes at a time.
use vstd::prelude::*;

verus! {

/// What the search for repositories does with a path.
#[derive(Clone, Copy, Debug, PartialEq, Eq, Structural)]
pub enum DirVisit {
    /// Not a directory: nothing is found there.
    Skip,
    /// A directory that holds `.git`: a repository, which is reported, and whose entries are
    /// searched in turn, so that repositories nested in it are found too.
    ReportAndSearch,
    /// Another directory: each of its entries is searched in turn, whatever its name.
    SearchEntries,
}

impl DirVisit {
    /// Whether the path is reported as a repository.
    pub open spec fn reports(self) -> bool {
        self == DirVisit::ReportAndSearch
    }

    /// Whether the entries of the path are searched in turn.
    pub open spec fn searches_entries(self) -> bool {
        self != DirVisit::Skip
    }
}

/// What the search does with a path, given whether it is a directory and whether it holds
/// an entry `.git`.
pub open spec fn visit_spec(is_dir: bool, holds_git: bool) -> DirVisit {
    if !is_dir {
        DirVisit::Skip
    } else if holds_git {
        DirVisit::ReportAndSearch
    } else {
        DirVisit::SearchEntries
    }
}

/// Decides what the search for repositories does with a path (see `visit_spec`): every
/// directory below the starting path is searched, and every one that holds `.git` is
/// reported.
pub fn visit_dir(is_dir: bool, holds_git: bool) -> (v: DirVisit)
    ensures
        v == visit_spec(is_dir, holds_git),
        v.reports() <==> (is_dir && holds_git),
        v.searches_entries() <==> is_dir,
{
    if !is_dir {
        DirVisit::Skip
    } else if holds_git {
        DirVisit::ReportAndSearch
    } else {
        DirVisit::SearchEntries
    }
}

/// How many commits a worker of the history scan takes at a time, for `commits` commits and
/// `threads` threads: four chunks per thread, but never fewer than 100 commits.
pub open spec fn chunk_size_for(commits: nat, threads: nat) -> nat {
    let c = commits / (threads * 4);
    if c > 100 {
        c
    } else {
        100
    }
}

/// The chunk size of the history scan for `commits` commits and `threads` threads.
pub fn history_chunk_size_for(commits: usize, threads: usize) -> (r: usize)
    requires
        1 <= threads <= usize::MAX / 4,
    ensures
        r == chunk_size_for(commits as nat, threads as nat),
{
    let c = commits / (threads * 4);
    if c > 100 {
        c
    } else {
        100
    }
}

/// The number of threads of rayon's pool (`rayon::current_num_threads`). Its contract
/// claims what rayon-core's source shows: a pool has at least one thread and at most
/// `max_num_threads()`, which is below 65536.
#[verifier::external_body]
fn worker_threads() -> (n: usize)
    ensures
        1 <= n <= 65535,
{
    rayon::current_num_threads()
}

/// The chunk size of the history scan for `commits` commits and the threads of the current
/// pool.
pub fn history_chunk_size(commits: usize) -> (r: usize)
    ensures
        exists|t: usize| 1 <= t <= 65535 && r == chunk_size_for(commits as nat, t as nat),
        r >= 100,
{
    let t = worker_threads();
    history_chunk_size_for(commits, t)
}

} // verus!
