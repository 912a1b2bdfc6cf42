//! What a repository's history says: the sizes of its objects, the sizes of its current
//! files, the blobs that each path has had, and the statistics per file drawn from them.
use vstd::prelude::*;
use vstd::hash_map::StringHashMap;
use crate::git::{
    diff_line, entry_pairs, object_line, parse_diff_line, parse_object_line, TreeEntry,
};
use crate::stats::{FileStats, StatsTable};
use crate::table::{OidSet, OrderedMap};

verus! {

broadcast use vstd::hash_map::group_hash_map_axioms;

/// The sizes that `m` records for the object `oid`, or zeros (`unwrap_or((0, 0))`).
pub open spec fn size_of(m: Map<Seq<char>, (u64, u64)>, oid: Seq<char>) -> (u64, u64) {
    if m.contains_key(oid) {
        m[oid]
    } else {
        (0, 0)
    }
}

/// The object sizes recorded in `m` after one more line of `git cat-file --batch-check`:
/// a line that names an object sets its sizes, a later line winning over an earlier one.
pub open spec fn sizes_step(m: Map<Seq<char>, (u64, u64)>, line: Seq<char>) -> Map<
    Seq<char>,
    (u64, u64),
> {
    match object_line(line) {
        Some((oid, u, c)) => m.insert(oid, (u, c)),
        None => m,
    }
}

/// The object sizes that the lines `lines` record, read in order.
pub open spec fn sizes_after(lines: Seq<Seq<char>>) -> Map<Seq<char>, (u64, u64)>
    decreases lines.len(),
{
    if lines.len() == 0 {
        Map::empty()
    } else {
        sizes_step(sizes_after(lines.drop_last()), lines.last())
    }
}

/// The uncompressed and on-disk size of each object of a repository, by object name.
pub struct SizeTable {
    map: StringHashMap<(u64, u64)>,
}

impl View for SizeTable {
    type V = Map<Seq<char>, (u64, u64)>;

    closed spec fn view(&self) -> Map<Seq<char>, (u64, u64)> {
        self.map@
    }
}

impl SizeTable {
    /// A table that records no object.
    pub fn new() -> (t: Self)
        ensures
            t@ == Map::<Seq<char>, (u64, u64)>::empty(),
    {
        SizeTable { map: StringHashMap::new() }
    }

    /// Records what one line of `git cat-file --batch-check` says (see `object_line`).
    pub fn record_line(&mut self, line: &str)
        ensures
            final(self)@ == sizes_step(old(self)@, line@),
    {
        match parse_object_line(line) {
            Some(o) => {
                self.map.insert(o.oid, (o.uncompressed, o.compressed));
            },
            None => {},
        }
    }

    /// The sizes of the object `oid`, or zeros where the table does not record it.
    pub fn sizes_of(&self, oid: &str) -> (r: (u64, u64))
        ensures
            r == size_of(self@, oid@),
    {
        match self.map.get(oid) {
            Some(s) => *s,
            None => (0, 0),
        }
    }
}

/// The size of each file of a tree: each entry `(path, blob)` in order sets the path's size
/// to the blob's uncompressed size, a later entry winning over an earlier one.
pub open spec fn latest_after(
    entries: Seq<(Seq<char>, Seq<char>)>,
    sizes: Map<Seq<char>, (u64, u64)>,
) -> Map<Seq<char>, u64>
    decreases entries.len(),
{
    if entries.len() == 0 {
        Map::empty()
    } else {
        let (path, oid) = entries.last();
        latest_after(entries.drop_last(), sizes).insert(path, size_of(sizes, oid).0)
    }
}

/// The size of each file of the current tree, from its entries and the object sizes.
pub fn latest_sizes(entries: &Vec<TreeEntry>, sizes: &SizeTable) -> (m: OrderedMap<u64>)
    ensures
        m.wf(),
        m@ == latest_after(entry_pairs(entries@), sizes@),
{
    let ghost pairs = entry_pairs(entries@);
    let mut m: OrderedMap<u64> = OrderedMap::new();
    let mut i: usize = 0;
    while i < entries.len()
        invariant
            i <= entries.len(),
            pairs == entry_pairs(entries@),
            m.wf(),
            m@ == latest_after(pairs.take(i as int), sizes@),
        decreases entries.len() - i,
    {
        let e = &entries[i];
        let (u, _) = sizes.sizes_of(e.oid.as_str());
        assert(pairs.take(i + 1).drop_last() == pairs.take(i as int));
        assert(pairs.take(i + 1).last() == e.pair());
        m.insert(e.path.clone(), u);
        i += 1;
    }
    assert(pairs.take(entries.len() as int) == pairs);
    m
}

/// The blobs that `m` records for `path`, or none.
pub open spec fn blobs_of(m: Map<Seq<char>, Set<Seq<char>>>, path: Seq<char>) -> Set<Seq<char>> {
    if m.contains_key(path) {
        m[path]
    } else {
        Set::empty()
    }
}

/// `m` with the blob `oid` recorded as a version of `path`.
pub open spec fn add_blob(m: Map<Seq<char>, Set<Seq<char>>>, path: Seq<char>, oid: Seq<char>) -> Map<
    Seq<char>,
    Set<Seq<char>>,
> {
    m.insert(path, blobs_of(m, path).insert(oid))
}

/// The blobs per path after one more line of `git diff-tree -r --raw` (see `diff_line`).
pub open spec fn history_step(m: Map<Seq<char>, Set<Seq<char>>>, line: Seq<char>) -> Map<
    Seq<char>,
    Set<Seq<char>>,
> {
    match diff_line(line) {
        Some((path, oid)) => add_blob(m, path, oid),
        None => m,
    }
}

/// The blobs per path that the lines `lines` of `git diff-tree` name, read in order.
pub open spec fn history_after(lines: Seq<Seq<char>>) -> Map<Seq<char>, Set<Seq<char>>>
    decreases lines.len(),
{
    if lines.len() == 0 {
        Map::empty()
    } else {
        history_step(history_after(lines.drop_last()), lines.last())
    }
}

/// The blobs per path that `a` and `b` record together.
pub open spec fn merged(a: Map<Seq<char>, Set<Seq<char>>>, b: Map<Seq<char>, Set<Seq<char>>>) -> Map<
    Seq<char>,
    Set<Seq<char>>,
> {
    Map::new(
        |p: Seq<char>| a.contains_key(p) || b.contains_key(p),
        |p: Seq<char>| blobs_of(a, p).union(blobs_of(b, p)),
    )
}

/// The part of `m` whose paths are among `keys`.
spec fn take_keys(m: Map<Seq<char>, Set<Seq<char>>>, keys: Seq<Seq<char>>) -> Map<
    Seq<char>,
    Set<Seq<char>>,
> {
    Map::new(|p: Seq<char>| keys.contains(p) && m.contains_key(p), |p: Seq<char>| m[p])
}

/// `before`, with the first `j` blobs of `order` recorded for `k`.
spec fn partial(
    before: Map<Seq<char>, Set<Seq<char>>>,
    k: Seq<char>,
    order: Seq<Seq<char>>,
    j: int,
) -> Map<Seq<char>, Set<Seq<char>>> {
    if j == 0 {
        before
    } else {
        before.insert(k, order.take(j).to_set())
    }
}

proof fn lemma_merge_step(
    a: Map<Seq<char>, Set<Seq<char>>>,
    before: Map<Seq<char>, Set<Seq<char>>>,
    k: Seq<char>,
    order: Seq<Seq<char>>,
    j: int,
)
    requires
        0 <= j < order.len(),
        !before.contains_key(k),
    ensures
        add_blob(merged(a, partial(before, k, order, j)), k, order[j]) == merged(
            a,
            partial(before, k, order, j + 1),
        ),
{
    order.take(j).lemma_push_to_set_commute(order[j]);
    assert(order.take(j + 1) == order.take(j).push(order[j]));
    if j == 0 {
        assert(order.take(0).to_set() =~= Set::<Seq<char>>::empty());
    }
    let l = add_blob(merged(a, partial(before, k, order, j)), k, order[j]);
    let r = merged(a, partial(before, k, order, j + 1));
    assert forall|p: Seq<char>| #[trigger] l.contains_key(p) implies l[p] =~= r[p] by {}
    assert(l =~= r);
}

/// Merging records with nothing changes nothing.
proof fn lemma_merged_empty(a: Map<Seq<char>, Set<Seq<char>>>)
    ensures
        merged(a, Map::empty()) == a,
{
    assert forall|p: Seq<char>| #[trigger] merged(a, Map::empty()).contains_key(p) implies merged(
        a,
        Map::empty(),
    )[p] =~= a[p] by {}
    assert(merged(a, Map::empty()) =~= a);
}

/// Reading the diff output of a history in two chunks and merging what each chunk records
/// gives what reading it all in one pass records: the history can be scanned in parallel
/// chunks, in any split.
pub proof fn law_history_chunks(l1: Seq<Seq<char>>, l2: Seq<Seq<char>>)
    ensures
        history_after(l1 + l2) == merged(history_after(l1), history_after(l2)),
    decreases l2.len(),
{
    if l2.len() == 0 {
        assert(l1 + l2 == l1);
        lemma_merged_empty(history_after(l1));
    } else {
        let x = l2.last();
        law_history_chunks(l1, l2.drop_last());
        assert((l1 + l2).drop_last() == l1 + l2.drop_last());
        assert((l1 + l2).last() == x);
        let h1 = history_after(l1);
        let h2 = history_after(l2.drop_last());
        match diff_line(x) {
            Some((path, oid)) => {
                let l = add_blob(merged(h1, h2), path, oid);
                let r = merged(h1, add_blob(h2, path, oid));
                assert forall|p: Seq<char>| #[trigger] l.contains_key(p) implies l[p] =~= r[p] by {}
                assert(l =~= r);
            },
            None => {},
        }
    }
}

/// The lines of the chunks `chunks`, one chunk after the other.
pub open spec fn concat_chunks(chunks: Seq<Seq<Seq<char>>>) -> Seq<Seq<char>>
    decreases chunks.len(),
{
    if chunks.len() == 0 {
        Seq::empty()
    } else {
        concat_chunks(chunks.drop_last()) + chunks.last()
    }
}

/// What reading each chunk of `chunks` on its own and merging the results, in the order of
/// `chunks`, records.
pub open spec fn merge_chunks(chunks: Seq<Seq<Seq<char>>>) -> Map<Seq<char>, Set<Seq<char>>>
    decreases chunks.len(),
{
    if chunks.len() == 0 {
        Map::empty()
    } else {
        merged(merge_chunks(chunks.drop_last()), history_after(chunks.last()))
    }
}

proof fn lemma_merged_swap(
    a: Map<Seq<char>, Set<Seq<char>>>,
    x: Map<Seq<char>, Set<Seq<char>>>,
    y: Map<Seq<char>, Set<Seq<char>>>,
)
    ensures
        merged(merged(a, x), y) == merged(merged(a, y), x),
{
    law_merge_associates(a, x, y);
    law_merge_commutes(x, y);
    law_merge_associates(a, y, x);
}

proof fn lemma_merge_chunks_remove(chunks: Seq<Seq<Seq<char>>>, k: int)
    requires
        0 <= k < chunks.len(),
    ensures
        merge_chunks(chunks) == merged(merge_chunks(chunks.remove(k)), history_after(chunks[k])),
    decreases chunks.len(),
{
    if k == chunks.len() - 1 {
        assert(chunks.remove(k) == chunks.drop_last());
    } else {
        let p = chunks.drop_last();
        lemma_merge_chunks_remove(p, k);
        assert(chunks.remove(k) == p.remove(k).push(chunks.last()));
        assert(chunks.remove(k).drop_last() == p.remove(k));
        assert(p[k] == chunks[k]);
        lemma_merged_swap(merge_chunks(p.remove(k)), history_after(chunks[k]), history_after(chunks.last()));
    }
}

proof fn lemma_merge_chunks_one_pass(chunks: Seq<Seq<Seq<char>>>)
    ensures
        merge_chunks(chunks) == history_after(concat_chunks(chunks)),
    decreases chunks.len(),
{
    if chunks.len() == 0 {
    } else {
        lemma_merge_chunks_one_pass(chunks.drop_last());
        law_history_chunks(concat_chunks(chunks.drop_last()), chunks.last());
    }
}

proof fn lemma_merge_chunks_any_order(a: Seq<Seq<Seq<char>>>, b: Seq<Seq<Seq<char>>>)
    requires
        a.to_multiset() == b.to_multiset(),
    ensures
        merge_chunks(a) == merge_chunks(b),
    decreases a.len(),
{
    broadcast use vstd::seq_lib::group_to_multiset_ensures;
    broadcast use vstd::multiset::group_multiset_axioms;
    vstd::seq_lib::to_multiset_len(a);
    vstd::seq_lib::to_multiset_len(b);
    if a.len() == 0 {
        assert(b.len() == 0);
    } else {
        let x = a.last();
        assert(a.to_multiset().contains(x));
        assert(b.contains(x));
        let k = choose|k: int| 0 <= k < b.len() && b[k] == x;
        assert(a == a.drop_last().push(x));
        assert(a.drop_last().to_multiset() == a.to_multiset().remove(x));
        assert(b.remove(k).to_multiset() == b.to_multiset().remove(x));
        lemma_merge_chunks_any_order(a.drop_last(), b.remove(k));
        lemma_merge_chunks_remove(b, k);
    }
}

/// However the diff output of a history is cut into chunks, and in whatever order the
/// chunks are read and their results merged, the merged record is what reading all the
/// lines in one pass records: the parallel scan's chunk size and order do not matter.
/// Merges grouped in any other way agree too, by `law_merge_associates`.
pub proof fn law_any_chunking(chunks: Seq<Seq<Seq<char>>>, reordered: Seq<Seq<Seq<char>>>)
    requires
        reordered.to_multiset() == chunks.to_multiset(),
    ensures
        merge_chunks(reordered) == history_after(concat_chunks(chunks)),
{
    lemma_merge_chunks_any_order(reordered, chunks);
    lemma_merge_chunks_one_pass(chunks);
}

/// The order in which two records are merged does not matter.
pub proof fn law_merge_commutes(a: Map<Seq<char>, Set<Seq<char>>>, b: Map<Seq<char>, Set<Seq<char>>>)
    ensures
        merged(a, b) == merged(b, a),
{
    assert forall|p: Seq<char>| #[trigger] merged(a, b).contains_key(p) implies merged(a, b)[p]
        =~= merged(b, a)[p] by {}
    assert(merged(a, b) =~= merged(b, a));
}

/// How merges of three records are grouped does not matter.
pub proof fn law_merge_associates(
    a: Map<Seq<char>, Set<Seq<char>>>,
    b: Map<Seq<char>, Set<Seq<char>>>,
    c: Map<Seq<char>, Set<Seq<char>>>,
)
    ensures
        merged(merged(a, b), c) == merged(a, merged(b, c)),
{
    let l = merged(merged(a, b), c);
    let r = merged(a, merged(b, c));
    assert forall|p: Seq<char>| #[trigger] l.contains_key(p) implies l[p] =~= r[p] by {}
    assert(l =~= r);
}

/// After a line of `git cat-file --batch-check` that names an object is recorded, looking
/// the object up gives the sizes that the line gave it.
pub proof fn law_sizes_lookup_after_record(m: Map<Seq<char>, (u64, u64)>, line: Seq<char>)
    ensures
        object_line(line) matches Some((oid, u, c)) ==> size_of(sizes_step(m, line), oid) == (u, c),
{
}

/// After a line of `git diff-tree` that names a blob of a path is recorded, the path's
/// blobs hold that blob, and the blobs of every other path are unchanged.
pub proof fn law_history_records_blob(m: Map<Seq<char>, Set<Seq<char>>>, line: Seq<char>)
    ensures
        diff_line(line) matches Some((path, oid)) ==> {
            &&& blobs_of(history_step(m, line), path).contains(oid)
            &&& forall|p: Seq<char>| p != path ==> #[trigger] blobs_of(history_step(m, line), p) == blobs_of(m, p)
        },
{
}

/// A blob that several commits introduce counts once: recording the same line of
/// `git diff-tree` again changes nothing.
pub proof fn law_history_step_idempotent(m: Map<Seq<char>, Set<Seq<char>>>, line: Seq<char>)
    ensures
        history_step(history_step(m, line), line) == history_step(m, line),
{
    match diff_line(line) {
        Some((path, oid)) => {
            let once = history_step(m, line);
            let twice = history_step(once, line);
            assert(blobs_of(once, path).insert(oid) =~= blobs_of(once, path));
            assert(twice =~= once);
        },
        None => {},
    }
}

/// The distinct blobs that each path of a repository has had, as commits introduced them.
pub struct BlobHistory {
    paths: OrderedMap<OidSet>,
}

impl View for BlobHistory {
    type V = Map<Seq<char>, Set<Seq<char>>>;

    closed spec fn view(&self) -> Map<Seq<char>, Set<Seq<char>>> {
        Map::new(|p: Seq<char>| self.paths@.contains_key(p), |p: Seq<char>| self.paths@[p]@)
    }
}

impl BlobHistory {
    /// The history's invariant.
    pub closed spec fn wf(&self) -> bool {
        &&& self.paths.wf()
        &&& forall|p: Seq<char>|
            #[trigger] self.paths@.contains_key(p) ==> self.paths@[p].wf()
                && self.paths@[p].order().len() > 0
    }

    /// A history that records nothing.
    pub fn new() -> (h: Self)
        ensures
            h.wf(),
            h@ == Map::<Seq<char>, Set<Seq<char>>>::empty(),
    {
        let h = BlobHistory { paths: OrderedMap::new() };
        assert(h@ =~= Map::<Seq<char>, Set<Seq<char>>>::empty());
        h
    }

    /// Every path that a history records holds at least one blob, and finitely many: a path
    /// is only ever recorded together with a blob of it.
    pub proof fn law_paths_hold_a_blob(&self)
        requires
            self.wf(),
        ensures
            forall|p: Seq<char>| #[trigger] self@.contains_key(p) ==> self@[p].finite() && self@[p].len() > 0,
    {
        assert forall|p: Seq<char>| #[trigger] self@.contains_key(p) implies self@[p].finite()
            && self@[p].len() > 0 by {
            let s = self.paths@[p];
            s.lemma_order();
            vstd::seq_lib::seq_to_set_is_finite(s.order());
            assert(s@.contains(s.order()[0]));
            vstd::set::axiom_set_contains_len(s@, s.order()[0]);
        }
    }

    /// Records `oid` as a version of `path`.
    pub fn add(&mut self, path: String, oid: String)
        requires
            old(self).wf(),
        ensures
            final(self).wf(),
            final(self)@ == add_blob(old(self)@, path@, oid@),
    {
        match self.paths.position(path.as_str()) {
            Some(i) => {
                let mut set = OidSet::new();
                self.paths.swap_value_at(i, &mut set);
                set.insert(oid);
                self.paths.swap_value_at(i, &mut set);
            },
            None => {
                let mut set = OidSet::new();
                set.insert(oid);
                self.paths.insert(path, set);
            },
        }
        assert(self@ =~= add_blob(old(self)@, path@, oid@)) by {
            assert forall|p: Seq<char>| #[trigger] self@.contains_key(p) implies self@[p]
                =~= add_blob(old(self)@, path@, oid@)[p] by {}
        }
    }

    /// Adds to this history everything that `other` records.
    pub fn merge(&mut self, other: &BlobHistory)
        requires
            old(self).wf(),
            other.wf(),
        ensures
            final(self).wf(),
            final(self)@ == merged(old(self)@, other@),
    {
        let ghost a = self@;
        let ghost keys = other.paths.key_order();
        proof {
            other.paths.lemma_keys();
            assert(merged(a, take_keys(other@, keys.take(0))) =~= a) by {
                assert forall|p: Seq<char>| #[trigger] merged(a, take_keys(other@, keys.take(0))).contains_key(p) implies merged(a, take_keys(other@, keys.take(0)))[p] =~= a[p] by {}
            }
        }
        let n = other.paths.len();
        let mut i: usize = 0;
        while i < n
            invariant
                i <= n,
                n == keys.len(),
                other.wf(),
                keys == other.paths.key_order(),
                keys.no_duplicates(),
                forall|k: Seq<char>| other.paths@.contains_key(k) <==> keys.contains(k),
                self.wf(),
                self@ == merged(a, take_keys(other@, keys.take(i as int))),
            decreases n - i,
        {
            let path = other.paths.key_at(i);
            let set = other.paths.value_at(i);
            let ghost k = keys[i as int];
            let ghost before = take_keys(other@, keys.take(i as int));
            proof {
                assert(keys.contains(k));
                assert(other.paths@.contains_key(k));
                set.lemma_order();
                assert(!keys.take(i as int).contains(k));
                assert(!before.contains_key(k));
            }
            let m = set.len();
            let mut j: usize = 0;
            while j < m
                invariant
                    j <= m,
                    m == set.order().len(),
                    set.wf(),
                    other@.contains_key(k),
                    set@ == other@[k],
                    set.order().no_duplicates(),
                    set@ == set.order().to_set(),
                    path@ == k,
                    !before.contains_key(k),
                    self.wf(),
                    self@ == merged(a, partial(before, k, set.order(), j as int)),
                decreases m - j,
            {
                let oid = set.at(j);
                self.add(path.clone(), oid.clone());
                proof {
                    lemma_merge_step(a, before, k, set.order(), j as int);
                }
                j += 1;
            }
            proof {
                assert(set.order().take(m as int) == set.order());
                assert(m > 0);
                assert(partial(before, k, set.order(), m as int) =~= take_keys(
                    other@,
                    keys.take(i + 1),
                )) by {
                    assert(keys.take(i + 1) == keys.take(i as int).push(k));
                    let l = partial(before, k, set.order(), m as int);
                    let r = take_keys(other@, keys.take(i + 1));
                    assert forall|p: Seq<char>| l.contains_key(p) <==> r.contains_key(p) by {
                        if p != k {
                            assert(keys.take(i + 1).contains(p) ==> keys.take(i as int).contains(p)) by {
                                if keys.take(i + 1).contains(p) {
                                    let x = choose|x: int| 0 <= x < i + 1 && #[trigger] keys.take(i + 1)[x] == p;
                                    assert(x < i);
                                    assert(keys.take(i as int)[x] == p);
                                }
                            }
                        } else {
                            assert(keys.take(i + 1)[i as int] == k);
                        }
                    }
                    assert forall|p: Seq<char>| #[trigger] l.contains_key(p) implies l[p] =~= r[p] by {}
                }
            }
            i += 1;
        }
        proof {
            assert(keys.take(n as int) == keys);
            assert(take_keys(other@, keys) =~= other@);
        }
    }

    /// Records what one line of `git diff-tree -r --raw` says (see `diff_line`).
    pub fn record_line(&mut self, line: &str)
        requires
            old(self).wf(),
        ensures
            final(self).wf(),
            final(self)@ == history_step(old(self)@, line@),
    {
        match parse_diff_line(line) {
            Some(b) => self.add(b.path, b.oid),
            None => {},
        }
    }
}

/// Adds the uncompressed size of one more object to a running total.
pub open spec fn add_uncompressed(sizes: Map<Seq<char>, (u64, u64)>) -> spec_fn(nat, Seq<char>) -> nat {
    |acc: nat, oid: Seq<char>| (acc + size_of(sizes, oid).0) as nat
}

/// Adds the on-disk size of one more object to a running total.
pub open spec fn add_compressed(sizes: Map<Seq<char>, (u64, u64)>) -> spec_fn(nat, Seq<char>) -> nat {
    |acc: nat, oid: Seq<char>| (acc + size_of(sizes, oid).1) as nat
}

/// The sum of the uncompressed sizes of the blobs `blobs`.
pub open spec fn uncompressed_total(blobs: Set<Seq<char>>, sizes: Map<Seq<char>, (u64, u64)>) -> nat {
    blobs.fold(0nat, add_uncompressed(sizes))
}

/// The sum of the on-disk sizes of the blobs `blobs`.
pub open spec fn compressed_total(blobs: Set<Seq<char>>, sizes: Map<Seq<char>, (u64, u64)>) -> nat {
    blobs.fold(0nat, add_compressed(sizes))
}

/// The size that `latest` records for `path`, or zero.
pub open spec fn latest_or_zero(latest: Map<Seq<char>, u64>, path: Seq<char>) -> u64 {
    if latest.contains_key(path) {
        latest[path]
    } else {
        0
    }
}

/// Whether both sums of sizes of `blobs` fit in a `u64`.
pub open spec fn totals_fit(blobs: Set<Seq<char>>, sizes: Map<Seq<char>, (u64, u64)>) -> bool {
    uncompressed_total(blobs, sizes) <= u64::MAX && compressed_total(blobs, sizes) <= u64::MAX
}

/// Whether the sums of sizes of every path of `h` fit in a `u64`.
pub open spec fn history_fits(h: Map<Seq<char>, Set<Seq<char>>>, sizes: Map<Seq<char>, (u64, u64)>) -> bool {
    forall|p: Seq<char>| #[trigger] h.contains_key(p) ==> totals_fit(h[p], sizes)
}

/// Whether `h` records `p` and the sums of sizes of its blobs fit in a `u64`.
pub open spec fn fits_at(h: Map<Seq<char>, Set<Seq<char>>>, p: Seq<char>, sizes: Map<Seq<char>, (u64, u64)>) -> bool {
    h.contains_key(p) && totals_fit(h[p], sizes)
}

/// The statistics of the file at `path`, whose history holds the blobs `blobs`: one version
/// per distinct blob, the sums of their sizes, and the file's size in the current tree.
pub open spec fn history_file_stats(
    blobs: Set<Seq<char>>,
    sizes: Map<Seq<char>, (u64, u64)>,
    latest: Map<Seq<char>, u64>,
    path: Seq<char>,
) -> FileStats {
    FileStats {
        versions: blobs.len() as u64,
        total_uncompressed: uncompressed_total(blobs, sizes) as u64,
        total_compressed: compressed_total(blobs, sizes) as u64,
        latest_size: latest_or_zero(latest, path),
    }
}

/// The statistics of every path that a history records.
pub open spec fn history_stats_view(
    h: Map<Seq<char>, Set<Seq<char>>>,
    sizes: Map<Seq<char>, (u64, u64)>,
    latest: Map<Seq<char>, u64>,
) -> Map<Seq<char>, FileStats> {
    Map::new(
        |p: Seq<char>| h.contains_key(p),
        |p: Seq<char>| history_file_stats(h[p], sizes, latest, p),
    )
}

proof fn lemma_fold_step(
    order: Seq<Seq<char>>,
    j: int,
    f: spec_fn(nat, Seq<char>) -> nat,
)
    requires
        0 <= j < order.len(),
        order.no_duplicates(),
        vstd::set::fold::is_fun_commutative(f),
    ensures
        order.take(j + 1).to_set().fold(0nat, f) == f(order.take(j).to_set().fold(0nat, f), order[j]),
{
    order.take(j).lemma_push_to_set_commute(order[j]);
    assert(order.take(j + 1) == order.take(j).push(order[j]));
    assert(!order.take(j).contains(order[j])) by {
        if order.take(j).contains(order[j]) {
            let x = choose|x: int| 0 <= x < j && #[trigger] order.take(j)[x] == order[j];
            assert(order[x] == order[j]);
        }
    }
    vstd::set::fold::lemma_fold_insert(order.take(j).to_set(), 0nat, f, order[j]);
}

proof fn lemma_adders_commute(sizes: Map<Seq<char>, (u64, u64)>)
    ensures
        vstd::set::fold::is_fun_commutative(add_uncompressed(sizes)),
        vstd::set::fold::is_fun_commutative(add_compressed(sizes)),
{
}

/// Running totals only grow as more of the blobs are summed.
proof fn lemma_fold_grows(order: Seq<Seq<char>>, j: int, k: int, f: spec_fn(nat, Seq<char>) -> nat)
    requires
        0 <= j <= k <= order.len(),
        order.no_duplicates(),
        vstd::set::fold::is_fun_commutative(f),
        forall|acc: nat, o: Seq<char>| #[trigger] f(acc, o) >= acc,
    ensures
        order.take(k).to_set().fold(0nat, f) >= order.take(j).to_set().fold(0nat, f),
    decreases k - j,
{
    if j < k {
        lemma_fold_step(order, j, f);
        lemma_fold_grows(order, j + 1, k, f);
    }
}

/// The statistics of each file that a history records: its distinct blobs are its versions,
/// their sizes are summed from the object sizes, and its latest size is its size in the
/// current tree. Returns `None` exactly when some file's sum exceeds `u64::MAX`.
pub fn history_stats(history: &BlobHistory, sizes: &SizeTable, latest: &OrderedMap<u64>) -> (r:
    Option<StatsTable>)
    requires
        history.wf(),
        latest.wf(),
    ensures
        r is Some <==> history_fits(history@, sizes@),
        r matches Some(t) ==> t.wf() && t@ == history_stats_view(history@, sizes@, latest@),
{
    let ghost keys = history.paths.key_order();
    let ghost h = history@;
    proof {
        history.paths.lemma_keys();
        lemma_adders_commute(sizes@);
    }
    let mut table: StatsTable = OrderedMap::new();
    let n = history.paths.len();
    let mut i: usize = 0;
    while i < n
        invariant
            i <= n,
            n == keys.len(),
            history.wf(),
            latest.wf(),
            h == history@,
            keys == history.paths.key_order(),
            keys.no_duplicates(),
            forall|k: Seq<char>| history.paths@.contains_key(k) <==> keys.contains(k),
            vstd::set::fold::is_fun_commutative(add_uncompressed(sizes@)),
            vstd::set::fold::is_fun_commutative(add_compressed(sizes@)),
            table.wf(),
            table@ == Map::new(
                |p: Seq<char>| keys.take(i as int).contains(p),
                |p: Seq<char>| history_file_stats(h[p], sizes@, latest@, p),
            ),
            forall|x: int| 0 <= x < i ==> #[trigger] fits_at(h, keys[x], sizes@),
        decreases n - i,
    {
        let path = history.paths.key_at(i);
        let set = history.paths.value_at(i);
        let ghost k = keys[i as int];
        proof {
            assert(keys.contains(k));
            assert(history.paths@.contains_key(k));
            set.lemma_order();
        }
        let ghost order = set.order();
        let m = set.len();
        let mut tu: u64 = 0;
        let mut tc: u64 = 0;
        let mut j: usize = 0;
        assert(order.take(0).to_set() =~= Set::<Seq<char>>::empty());
        proof {
            vstd::set::fold::lemma_fold_empty(0nat, add_uncompressed(sizes@));
            vstd::set::fold::lemma_fold_empty(0nat, add_compressed(sizes@));
            assert(h[k] == set@);
        }
        while j < m
            invariant
                j <= m,
                m == order.len(),
                set.wf(),
                order == set.order(),
                order.no_duplicates(),
                h.contains_key(k),
                h == history@,
                h[k] == order.to_set(),
                vstd::set::fold::is_fun_commutative(add_uncompressed(sizes@)),
                vstd::set::fold::is_fun_commutative(add_compressed(sizes@)),
                tu == order.take(j as int).to_set().fold(0nat, add_uncompressed(sizes@)),
                tc == order.take(j as int).to_set().fold(0nat, add_compressed(sizes@)),
            decreases m - j,
        {
            let (u, c) = sizes.sizes_of(set.at(j).as_str());
            proof {
                lemma_fold_step(order, j as int, add_uncompressed(sizes@));
                lemma_fold_step(order, j as int, add_compressed(sizes@));
            }
            let nu = tu.checked_add(u);
            let nc = tc.checked_add(c);
            if nu.is_none() || nc.is_none() {
                proof {
                    lemma_fold_grows(order, j + 1, m as int, add_uncompressed(sizes@));
                    lemma_fold_grows(order, j + 1, m as int, add_compressed(sizes@));
                    assert(order.take(m as int) == order);
                    assert(!totals_fit(h[k], sizes@));
                }
                return None;
            }
            tu = nu.unwrap();
            tc = nc.unwrap();
            j += 1;
        }
        proof {
            assert(order.take(m as int) == order);
            order.unique_seq_to_set();
        }
        let stats = FileStats {
            versions: m as u64,
            total_uncompressed: tu,
            total_compressed: tc,
            latest_size: match latest.get(path.as_str()) {
                Some(v) => *v,
                None => 0,
            },
        };
        assert(stats == history_file_stats(h[k], sizes@, latest@, k));
        assert(totals_fit(h[keys[i as int]], sizes@));
        table.insert(path.clone(), stats);
        assert(keys.take(i + 1) == keys.take(i as int).push(k));
        assert forall|p: Seq<char>| keys.take(i + 1).contains(p) <==> (keys.take(i as int).contains(
            p,
        ) || p == k) by {
            vstd::seq_lib::lemma_seq_contains_after_push(keys.take(i as int), k, p);
        }
        assert(table@ =~= Map::new(
            |p: Seq<char>| keys.take(i + 1).contains(p),
            |p: Seq<char>| history_file_stats(h[p], sizes@, latest@, p),
        ));
        assert(fits_at(h, keys[i as int], sizes@));
        i += 1;
    }
    assert(keys.take(n as int) == keys);
    assert(table@ =~= history_stats_view(h, sizes@, latest@));
    assert(history_fits(h, sizes@)) by {
        assert forall|p: Seq<char>| #[trigger] h.contains_key(p) implies totals_fit(h[p], sizes@) by {
            assert(keys.contains(p));
            let x = choose|x: int| 0 <= x < keys.len() && keys[x] == p;
            assert(fits_at(h, keys[x], sizes@));
        }
    }
    Some(table)
}

/// The statistics of a file of the current tree before its blob is looked at: one version,
/// no sizes summed, and its current size.
pub open spec fn current_base(latest: Map<Seq<char>, u64>) -> Map<Seq<char>, FileStats> {
    Map::new(
        |p: Seq<char>| latest.contains_key(p),
        |p: Seq<char>| FileStats { versions: 1, total_uncompressed: 0, total_compressed: 0, latest_size: latest[p] },
    )
}

/// The statistics of a file of the current tree whose blob has the sizes `(u, c)`: one
/// version, whose sizes are the totals, and whose uncompressed size is the current size.
pub open spec fn current_file_stats(u: u64, c: u64) -> FileStats {
    FileStats { versions: 1, total_uncompressed: u, total_compressed: c, latest_size: u }
}

/// `base`, with each tree entry `(path, blob)` in order setting the statistics of its path
/// from the sizes of its blob.
pub open spec fn current_after(
    base: Map<Seq<char>, FileStats>,
    entries: Seq<(Seq<char>, Seq<char>)>,
    sizes: Map<Seq<char>, (u64, u64)>,
) -> Map<Seq<char>, FileStats>
    decreases entries.len(),
{
    if entries.len() == 0 {
        base
    } else {
        let (path, oid) = entries.last();
        let (u, c) = size_of(sizes, oid);
        current_after(base, entries.drop_last(), sizes).insert(path, current_file_stats(u, c))
    }
}

/// The statistics when only the current tree is analysed: each file that `latest` records
/// counts once with its current size, then each entry of the tree listing `entries` sets
/// the statistics of its file from the sizes of its blob.
pub fn current_tree_stats(latest: &OrderedMap<u64>, entries: &Vec<TreeEntry>, sizes: &SizeTable) -> (t:
    StatsTable)
    requires
        latest.wf(),
    ensures
        t.wf(),
        t@ == current_after(current_base(latest@), entry_pairs(entries@), sizes@),
{
    let ghost keys = latest.key_order();
    proof {
        latest.lemma_keys();
    }
    let mut table: StatsTable = OrderedMap::new();
    let n = latest.len();
    let mut i: usize = 0;
    while i < n
        invariant
            i <= n,
            n == keys.len(),
            latest.wf(),
            keys == latest.key_order(),
            forall|k: Seq<char>| latest@.contains_key(k) <==> keys.contains(k),
            table.wf(),
            table@ == Map::new(
                |p: Seq<char>| keys.take(i as int).contains(p),
                |p: Seq<char>| current_base(latest@)[p],
            ),
        decreases n - i,
    {
        let path = latest.key_at(i);
        let size = *latest.value_at(i);
        let ghost k = keys[i as int];
        assert(keys.contains(k));
        table.insert(
            path.clone(),
            FileStats { versions: 1, total_uncompressed: 0, total_compressed: 0, latest_size: size },
        );
        assert(keys.take(i + 1) == keys.take(i as int).push(k));
        assert forall|p: Seq<char>| keys.take(i + 1).contains(p) <==> (keys.take(i as int).contains(
            p,
        ) || p == k) by {
            vstd::seq_lib::lemma_seq_contains_after_push(keys.take(i as int), k, p);
        }
        assert(table@ =~= Map::new(
            |p: Seq<char>| keys.take(i + 1).contains(p),
            |p: Seq<char>| current_base(latest@)[p],
        ));
        i += 1;
    }
    assert(keys.take(n as int) == keys);
    assert(table@ =~= current_base(latest@));
    let ghost pairs = entry_pairs(entries@);
    let mut j: usize = 0;
    while j < entries.len()
        invariant
            j <= entries.len(),
            pairs == entry_pairs(entries@),
            table.wf(),
            table@ == current_after(current_base(latest@), pairs.take(j as int), sizes@),
        decreases entries.len() - j,
    {
        let e = &entries[j];
        let (u, c) = sizes.sizes_of(e.oid.as_str());
        assert(pairs.take(j + 1).drop_last() == pairs.take(j as int));
        assert(pairs.take(j + 1).last() == e.pair());
        table.insert(
            e.path.clone(),
            FileStats { versions: 1, total_uncompressed: u, total_compressed: c, latest_size: u },
        );
        j += 1;
    }
    assert(pairs.take(entries.len() as int) == pairs);
    table
}

} // verus!
