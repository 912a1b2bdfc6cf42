//! Statistics per file, and the table that gathers them across repositories.
use vstd::prelude::*;
use crate::table::OrderedMap;
use crate::text::{push_char, push_str};

verus! {

/// Statistics for a single file.
#[derive(Clone, Copy, Debug, PartialEq, Eq, Structural)]
pub struct FileStats {
    /// Number of unique versions (blobs) of this file.
    pub versions: u64,
    /// Sum of the uncompressed sizes of all unique blobs.
    pub total_uncompressed: u64,
    /// Sum of the compressed (on-disk) sizes of all unique blobs.
    pub total_compressed: u64,
    /// Size of the file in the most recent version (HEAD).
    pub latest_size: u64,
}

/// Statistics per file path, in the order in which the paths first came.
pub type StatsTable = OrderedMap<FileStats>;

/// Statistics of a file that nothing has been counted for yet.
pub open spec fn zero_stats() -> FileStats {
    FileStats { versions: 0, total_uncompressed: 0, total_compressed: 0, latest_size: 0 }
}

/// The statistics that `m` holds for `k`, or zero ones.
pub open spec fn stats_or_zero(m: Map<Seq<char>, FileStats>, k: Seq<char>) -> FileStats {
    if m.contains_key(k) {
        m[k]
    } else {
        zero_stats()
    }
}

/// Whether adding the counts of `b` to those of `a` stays within `u64`.
pub open spec fn counts_fit(a: FileStats, b: FileStats) -> bool {
    &&& a.versions + b.versions <= u64::MAX
    &&& a.total_uncompressed + b.total_uncompressed <= u64::MAX
    &&& a.total_compressed + b.total_compressed <= u64::MAX
}

/// The counts of `a` and `b` added up, with the latest size of `b`.
pub open spec fn accumulate(a: FileStats, b: FileStats) -> FileStats {
    FileStats {
        versions: (a.versions + b.versions) as u64,
        total_uncompressed: (a.total_uncompressed + b.total_uncompressed) as u64,
        total_compressed: (a.total_compressed + b.total_compressed) as u64,
        latest_size: b.latest_size,
    }
}

/// The key under which a file of a repository is reported: the repository's directory, a
/// slash and the file's path when several repositories are analysed, else the path alone.
pub open spec fn report_key(repo_dir: Option<Seq<char>>, path: Seq<char>) -> Seq<char> {
    match repo_dir {
        Some(d) => d + seq!['/'] + path,
        None => path,
    }
}

/// The statistics of all repositories so far, `all`, after adding those of one repository,
/// `(path, stats)` pair by pair in order; `None` where a count would exceed `u64::MAX`.
pub open spec fn absorb_entries(
    all: Map<Seq<char>, FileStats>,
    repo_dir: Option<Seq<char>>,
    entries: Seq<(Seq<char>, FileStats)>,
) -> Option<Map<Seq<char>, FileStats>>
    decreases entries.len(),
{
    if entries.len() == 0 {
        Some(all)
    } else {
        match absorb_entries(all, repo_dir, entries.drop_last()) {
            Some(m) => {
                let (path, s) = entries.last();
                let k = report_key(repo_dir, path);
                let prev = stats_or_zero(m, k);
                if counts_fit(prev, s) {
                    Some(m.insert(k, accumulate(prev, s)))
                } else {
                    None
                }
            },
            None => None,
        }
    }
}

/// The `(path, statistics)` pairs of a table, in its key order.
pub open spec fn table_entries(t: StatsTable) -> Seq<(Seq<char>, FileStats)> {
    t.key_order().map_values(|k: Seq<char>| (k, t@[k]))
}

/// The key under which `path` of the repository in `repo_dir` is reported.
pub fn report_key_string(repo_dir: Option<&str>, path: &str) -> (k: String)
    ensures
        k@ == report_key(
            match repo_dir {
                Some(d) => Some(d@),
                None => None,
            },
            path@,
        ),
{
    match repo_dir {
        Some(d) => {
            let mut k = d.to_owned();
            push_char(&mut k, '/');
            push_str(&mut k, path);
            k
        },
        None => path.to_owned(),
    }
}

/// Adds the statistics of one repository to those of all repositories so far: for each file,
/// under its report key, the counts are added and the latest size is replaced. Returns
/// `false` exactly when a count would exceed `u64::MAX`.
pub fn absorb_repo(all: &mut StatsTable, repo_dir: Option<&str>, repo: &StatsTable) -> (ok: bool)
    requires
        old(all).wf(),
        repo.wf(),
    ensures
        final(all).wf(),
        ok == absorb_entries(
            old(all)@,
            match repo_dir {
                Some(d) => Some(d@),
                None => None,
            },
            table_entries(*repo),
        ) is Some,
        ok ==> final(all)@ == absorb_entries(
            old(all)@,
            match repo_dir {
                Some(d) => Some(d@),
                None => None,
            },
            table_entries(*repo),
        )->0,
{
    let ghost dir = match repo_dir {
        Some(d) => Some(d@),
        None => None,
    };
    let ghost entries = table_entries(*repo);
    let n = repo.len();
    let mut i: usize = 0;
    while i < n
        invariant
            i <= n,
            n == repo.key_order().len(),
            repo.wf(),
            all.wf(),
            entries == table_entries(*repo),
            absorb_entries(old(all)@, dir, entries.take(i as int)) == Some(all@),
            dir == (match repo_dir {
                Some(d) => Some(d@),
                None => None,
            }),
        decreases n - i,
    {
        let path = repo.key_at(i);
        let s = *repo.value_at(i);
        let key = report_key_string(repo_dir, path.as_str());
        assert(entries.take(i + 1).drop_last() == entries.take(i as int));
        assert(entries.take(i + 1).last() == (path@, s));
        let prev = match all.get(key.as_str()) {
            Some(p) => *p,
            None => FileStats { versions: 0, total_uncompressed: 0, total_compressed: 0, latest_size: 0 },
        };
        assert(prev == stats_or_zero(all@, key@));
        let versions = match prev.versions.checked_add(s.versions) {
            Some(v) => v,
            None => {
                proof {
                    lemma_absorb_none_extends(old(all)@, dir, entries, i as int + 1);
                }
                return false;
            },
        };
        let total_uncompressed = match prev.total_uncompressed.checked_add(s.total_uncompressed) {
            Some(v) => v,
            None => {
                proof {
                    lemma_absorb_none_extends(old(all)@, dir, entries, i as int + 1);
                }
                return false;
            },
        };
        let total_compressed = match prev.total_compressed.checked_add(s.total_compressed) {
            Some(v) => v,
            None => {
                proof {
                    lemma_absorb_none_extends(old(all)@, dir, entries, i as int + 1);
                }
                return false;
            },
        };
        all.insert(
            key,
            FileStats { versions, total_uncompressed, total_compressed, latest_size: s.latest_size },
        );
        i += 1;
    }
    assert(entries.take(n as int) == entries);
    true
}

/// Once adding a prefix of the pairs overflows, adding all of them does.
proof fn lemma_absorb_none_extends(
    all: Map<Seq<char>, FileStats>,
    dir: Option<Seq<char>>,
    entries: Seq<(Seq<char>, FileStats)>,
    i: int,
)
    requires
        0 <= i <= entries.len(),
        absorb_entries(all, dir, entries.take(i)) is None,
    ensures
        absorb_entries(all, dir, entries) is None,
    decreases entries.len() - i,
{
    if i < entries.len() {
        assert(entries.take(i + 1).drop_last() == entries.take(i));
        lemma_absorb_none_extends(all, dir, entries, i + 1);
    } else {
        assert(entries.take(i) == entries);
    }
}

/// Adding the statistics of a single repository, under their own paths, to empty
/// statistics gives that repository's statistics unchanged: analysing one repository
/// reports its files as they are.
pub proof fn law_single_repo_unchanged(t: StatsTable)
    requires
        t.wf(),
    ensures
        absorb_entries(Map::empty(), None, table_entries(t)) == Some(t@),
{
    t.lemma_keys();
    let keys = t.key_order();
    let entries = table_entries(t);
    assert forall|i: int| 0 <= i <= keys.len() implies #[trigger] absorb_entries(
        Map::empty(),
        None,
        entries.take(i),
    ) == Some(Map::new(|k: Seq<char>| keys.take(i).contains(k), |k: Seq<char>| t@[k])) by {
        lemma_single_repo_prefix(t, i);
    }
    assert(entries.take(keys.len() as int) == entries);
    assert(Map::new(|k: Seq<char>| keys.take(keys.len() as int).contains(k), |k: Seq<char>| t@[k]) =~= t@) by {
        assert(keys.take(keys.len() as int) == keys);
    }
}

proof fn lemma_single_repo_prefix(t: StatsTable, i: int)
    requires
        t.wf(),
        0 <= i <= t.key_order().len(),
    ensures
        absorb_entries(Map::empty(), None, table_entries(t).take(i)) == Some(
            Map::new(|k: Seq<char>| t.key_order().take(i).contains(k), |k: Seq<char>| t@[k]),
        ),
    decreases i,
{
    t.lemma_keys();
    let keys = t.key_order();
    let entries = table_entries(t);
    if i == 0 {
        assert(entries.take(0) == Seq::<(Seq<char>, FileStats)>::empty());
        assert(Map::new(|k: Seq<char>| keys.take(0).contains(k), |k: Seq<char>| t@[k]) =~= Map::<
            Seq<char>,
            FileStats,
        >::empty());
    } else {
        lemma_single_repo_prefix(t, i - 1);
        let prev = Map::new(|k: Seq<char>| keys.take(i - 1).contains(k), |k: Seq<char>| t@[k]);
        let k = keys[i - 1];
        assert(entries.take(i).drop_last() == entries.take(i - 1));
        assert(entries.take(i).last() == (k, t@[k]));
        assert(!keys.take(i - 1).contains(k)) by {
            if keys.take(i - 1).contains(k) {
                let x = choose|x: int| 0 <= x < i - 1 && #[trigger] keys.take(i - 1)[x] == k;
                assert(keys[x] == k);
            }
        }
        assert(!prev.contains_key(k));
        assert(keys.take(i) == keys.take(i - 1).push(k));
        assert forall|p: Seq<char>| keys.take(i).contains(p) <==> (keys.take(i - 1).contains(p)
            || p == k) by {
            vstd::seq_lib::lemma_seq_contains_after_push(keys.take(i - 1), k, p);
        }
        assert(prev.insert(k, accumulate(zero_stats(), t@[k])) =~= Map::new(
            |p: Seq<char>| keys.take(i).contains(p),
            |p: Seq<char>| t@[p],
        ));
    }
}

} // verus!
