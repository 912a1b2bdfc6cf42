//! Ordering the rows of a report by one of its columns.
use vstd::prelude::*;
use vstd::utf8::encode_utf8;
use core::cmp::Ordering;
use rayon::slice::ParallelSliceMut;
use crate::stats::FileStats;

verus! {

/// The column that orders a report.
#[derive(Clone, Copy, Debug, PartialEq, Eq, Structural)]
pub enum SortBy {
    Path,
    Size,
    Versions,
    Uncompressed,
    Compressed,
    Ratio,
}

/// One row of a report: a file, its statistics, and a number that orders rows as their
/// compression ratios (compressed over uncompressed size) do.
#[derive(Debug)]
pub struct Row {
    pub path: String,
    pub stats: FileStats,
    pub ratio_rank: u64,
}

/// Whether the byte sequence `a` comes strictly before `b` in lexicographic order, the
/// order in which Rust compares strings.
pub open spec fn bytes_lt(a: Seq<u8>, b: Seq<u8>) -> bool
    decreases a.len(),
{
    if b.len() == 0 {
        false
    } else if a.len() == 0 {
        true
    } else if a[0] != b[0] {
        a[0] < b[0]
    } else {
        bytes_lt(a.drop_first(), b.drop_first())
    }
}

/// The number that orders rows by the numeric column `by`.
pub open spec fn sort_number(r: Row, by: SortBy) -> u64 {
    match by {
        SortBy::Path => 0,
        SortBy::Size => r.stats.latest_size,
        SortBy::Versions => r.stats.versions,
        SortBy::Uncompressed => r.stats.total_uncompressed,
        SortBy::Compressed => r.stats.total_compressed,
        SortBy::Ratio => r.ratio_rank,
    }
}

/// Whether row `a` comes strictly before row `b` in the ascending order of column `by`:
/// paths by their UTF-8 bytes, other columns by their numbers.
pub open spec fn key_lt(a: Row, b: Row, by: SortBy) -> bool {
    if by == SortBy::Path {
        bytes_lt(encode_utf8(a.path@), encode_utf8(b.path@))
    } else {
        sort_number(a, by) < sort_number(b, by)
    }
}

/// Whether row `a` comes strictly before row `b` in the order that column `by` and the
/// direction `descending` ask for.
pub open spec fn before(a: Row, b: Row, by: SortBy, descending: bool) -> bool {
    if descending {
        key_lt(b, a, by)
    } else {
        key_lt(a, b, by)
    }
}

/// `t` with `x` inserted after every row that `x` does not come before.
pub open spec fn insert_in_order(t: Seq<Row>, x: Row, by: SortBy, descending: bool) -> Seq<Row>
    decreases t.len(),
{
    if t.len() == 0 {
        seq![x]
    } else if before(x, t.last(), by, descending) {
        insert_in_order(t.drop_last(), x, by, descending).push(t.last())
    } else {
        t.push(x)
    }
}

/// The stable ordering of `s`: rows in the order that `before` asks for, rows that neither
/// comes before the other keeping the order that they had in `s`.
pub open spec fn stable_sorted(s: Seq<Row>, by: SortBy, descending: bool) -> Seq<Row>
    decreases s.len(),
{
    if s.len() == 0 {
        s
    } else {
        insert_in_order(stable_sorted(s.drop_last(), by, descending), s.last(), by, descending)
    }
}

/// Whether `a` comes strictly before `b`, comparing the UTF-8 bytes of two texts.
fn str_bytes_lt(a: &str, b: &str) -> (r: bool)
    ensures
        r == bytes_lt(encode_utf8(a@), encode_utf8(b@)),
{
    let x = a.as_bytes();
    let y = b.as_bytes();
    let ghost xs = x@;
    let ghost ys = y@;
    let mut i: usize = 0;
    assert(xs.skip(0) == xs && ys.skip(0) == ys);
    while i < x.len() && i < y.len() && x[i] == y[i]
        invariant
            i <= x@.len(),
            i <= y@.len(),
            xs == x@,
            ys == y@,
            xs == encode_utf8(a@),
            ys == encode_utf8(b@),
            bytes_lt(xs, ys) == bytes_lt(xs.skip(i as int), ys.skip(i as int)),
        decreases x@.len() - i,
    {
        assert(xs.skip(i as int).drop_first() == xs.skip(i + 1));
        assert(ys.skip(i as int).drop_first() == ys.skip(i + 1));
        i += 1;
    }
    if i == y.len() {
        false
    } else if i == x.len() {
        true
    } else {
        x[i] < y[i]
    }
}

/// How row `a` compares with row `b` in the order of column `by`, reversed when
/// `descending`: `Less` when `a` comes first, `Greater` when `b` does, `Equal` otherwise.
pub fn compare_rows(a: &Row, b: &Row, by: SortBy, descending: bool) -> (o: Ordering)
    ensures
        (o == Ordering::Less) == before(*a, *b, by, descending),
        (o == Ordering::Greater) == before(*b, *a, by, descending),
{
    let (first, second) = if descending {
        (b, a)
    } else {
        (a, b)
    };
    let lt: bool;
    let gt: bool;
    match by {
        SortBy::Path => {
            lt = str_bytes_lt(first.path.as_str(), second.path.as_str());
            gt = str_bytes_lt(second.path.as_str(), first.path.as_str());
        },
        _ => {
            let x = row_number(first, by);
            let y = row_number(second, by);
            lt = x < y;
            gt = y < x;
        },
    }
    if lt {
        proof {
            lemma_key_lt_asymmetric(*first, *second, by);
        }
        Ordering::Less
    } else if gt {
        Ordering::Greater
    } else {
        Ordering::Equal
    }
}

/// The number of row `r` in column `by`.
fn row_number(r: &Row, by: SortBy) -> (n: u64)
    ensures
        n == sort_number(*r, by),
{
    match by {
        SortBy::Path => 0,
        SortBy::Size => r.stats.latest_size,
        SortBy::Versions => r.stats.versions,
        SortBy::Uncompressed => r.stats.total_uncompressed,
        SortBy::Compressed => r.stats.total_compressed,
        SortBy::Ratio => r.ratio_rank,
    }
}

/// Paths are ordered lexicographically by their UTF-8 bytes, whatever their lengths: where
/// the bytes of `a`'s path and `b`'s path first differ at `k`, and `a`'s byte there is the
/// smaller, `a` comes first in the ascending order by path and `b` in the descending one.
pub proof fn law_path_order_first_difference(a: Row, b: Row, k: int)
    requires
        0 <= k < encode_utf8(a.path@).len(),
        k < encode_utf8(b.path@).len(),
        encode_utf8(a.path@).take(k) == encode_utf8(b.path@).take(k),
        encode_utf8(a.path@)[k] < encode_utf8(b.path@)[k],
    ensures
        before(a, b, SortBy::Path, false),
        !before(b, a, SortBy::Path, false),
        before(b, a, SortBy::Path, true),
{
    lemma_bytes_first_difference(encode_utf8(a.path@), encode_utf8(b.path@), k);
    lemma_bytes_lt_asymmetric(encode_utf8(a.path@), encode_utf8(b.path@));
}

/// A path whose bytes are a proper prefix of another's comes before it in the ascending
/// order by path.
pub proof fn law_path_order_prefix(a: Row, b: Row)
    requires
        encode_utf8(a.path@).len() < encode_utf8(b.path@).len(),
        encode_utf8(b.path@).take(encode_utf8(a.path@).len() as int) == encode_utf8(a.path@),
    ensures
        before(a, b, SortBy::Path, false),
        !before(b, a, SortBy::Path, false),
{
    lemma_bytes_prefix(encode_utf8(a.path@), encode_utf8(b.path@));
    lemma_bytes_lt_asymmetric(encode_utf8(a.path@), encode_utf8(b.path@));
}

proof fn lemma_bytes_first_difference(x: Seq<u8>, y: Seq<u8>, k: int)
    requires
        0 <= k < x.len(),
        k < y.len(),
        x.take(k) == y.take(k),
        x[k] < y[k],
    ensures
        bytes_lt(x, y),
    decreases k,
{
    if k > 0 {
        assert(x[0] == x.take(k)[0] && y[0] == y.take(k)[0]);
        assert(x.drop_first().take(k - 1) == x.take(k).drop_first());
        assert(y.drop_first().take(k - 1) == y.take(k).drop_first());
        lemma_bytes_first_difference(x.drop_first(), y.drop_first(), k - 1);
    }
}

proof fn lemma_bytes_prefix(x: Seq<u8>, y: Seq<u8>)
    requires
        x.len() < y.len(),
        y.take(x.len() as int) == x,
    ensures
        bytes_lt(x, y),
    decreases x.len(),
{
    if x.len() > 0 {
        assert(y[0] == y.take(x.len() as int)[0]);
        assert(y.drop_first().take(x.len() - 1) == y.take(x.len() as int).drop_first());
        lemma_bytes_prefix(x.drop_first(), y.drop_first());
    }
}

/// No byte sequence comes before one that comes before it.
pub proof fn lemma_bytes_lt_asymmetric(a: Seq<u8>, b: Seq<u8>)
    ensures
        bytes_lt(a, b) ==> !bytes_lt(b, a),
    decreases a.len(),
{
    if a.len() > 0 && b.len() > 0 && a[0] == b[0] {
        lemma_bytes_lt_asymmetric(a.drop_first(), b.drop_first());
    }
}

/// No row comes before one that comes before it.
pub proof fn lemma_key_lt_asymmetric(a: Row, b: Row, by: SortBy)
    ensures
        key_lt(a, b, by) ==> !key_lt(b, a, by),
{
    lemma_bytes_lt_asymmetric(encode_utf8(a.path@), encode_utf8(b.path@));
}

/// Sorts `rows` in parallel, stably, by `compare_rows` (rayon's `par_sort_by`). Its contract
/// claims that the result is the stable ordering of the rows that `compare_rows` describes:
/// rayon documents the sort as stable, and `compare_rows` orders rows totally by a key.
#[verifier::external_body]
fn par_sort_rows(rows: &mut Vec<Row>, by: SortBy, descending: bool)
    ensures
        final(rows)@ == stable_sorted(old(rows)@, by, descending),
{
    rows.par_sort_by(|a, b| compare_rows(a, b, by, descending));
}

/// Sorts the rows of a report by the column `by`, ascending or descending; rows that the
/// column does not tell apart keep their order.
pub fn sort_rows(rows: &mut Vec<Row>, by: SortBy, descending: bool)
    ensures
        final(rows)@ == stable_sorted(old(rows)@, by, descending),
        sorted_by(final(rows)@, by, descending),
        final(rows)@.to_multiset() == old(rows)@.to_multiset(),
{
    par_sort_rows(rows, by, descending);
    proof {
        law_sorted_rows(old(rows)@, by, descending);
    }
}

/// Byte order is transitive.
pub proof fn lemma_bytes_lt_transitive(a: Seq<u8>, b: Seq<u8>, c: Seq<u8>)
    requires
        bytes_lt(a, b),
        bytes_lt(b, c),
    ensures
        bytes_lt(a, c),
    decreases a.len(),
{
    if a.len() > 0 && b.len() > 0 && c.len() > 0 && a[0] == b[0] && b[0] == c[0] {
        lemma_bytes_lt_transitive(a.drop_first(), b.drop_first(), c.drop_first());
    }
}

/// Of two different byte sequences, one comes before the other.
pub proof fn lemma_bytes_lt_total(a: Seq<u8>, b: Seq<u8>)
    ensures
        a == b || bytes_lt(a, b) || bytes_lt(b, a),
    decreases a.len(),
{
    if a.len() == 0 && b.len() == 0 {
        assert(a =~= b);
    } else if a.len() > 0 && b.len() > 0 && a[0] == b[0] {
        lemma_bytes_lt_total(a.drop_first(), b.drop_first());
        if a.drop_first() == b.drop_first() {
            let ta = a.drop_first();
            let tb = b.drop_first();
            assert(a =~= seq![a[0]] + ta);
            assert(b =~= seq![b[0]] + tb);
            assert(seq![a[0]] + ta == seq![b[0]] + tb);
        }
    }
}

/// Whenever `x` comes before `y`, any row `z` comes after `x` or before `y`.
pub proof fn lemma_before_connected(x: Row, y: Row, z: Row, by: SortBy, descending: bool)
    requires
        before(x, y, by, descending),
    ensures
        before(x, z, by, descending) || before(z, y, by, descending),
{
    if by == SortBy::Path {
        let (bx, by_, bz) = (encode_utf8(x.path@), encode_utf8(y.path@), encode_utf8(z.path@));
        lemma_bytes_lt_total(bx, bz);
        lemma_bytes_lt_total(by_, bz);
        if descending {
            if bytes_lt(bz, by_) {
                lemma_bytes_lt_transitive(bz, by_, bx);
            }
        } else {
            if bytes_lt(bz, bx) {
                lemma_bytes_lt_transitive(bz, bx, by_);
            }
        }
    }
}

/// No row comes before a row that comes before it.
pub proof fn lemma_before_asymmetric(x: Row, y: Row, by: SortBy, descending: bool)
    ensures
        before(x, y, by, descending) ==> !before(y, x, by, descending),
{
    lemma_key_lt_asymmetric(x, y, by);
    lemma_key_lt_asymmetric(y, x, by);
}

/// Whether no row of `s` comes before a row that precedes it.
pub open spec fn sorted_by(s: Seq<Row>, by: SortBy, descending: bool) -> bool {
    forall|i: int, j: int| 0 <= i < j < s.len() ==> !before(#[trigger] s[j], #[trigger] s[i], by, descending)
}

proof fn lemma_insert_in_order(t: Seq<Row>, x: Row, by: SortBy, descending: bool)
    requires
        sorted_by(t, by, descending),
    ensures
        sorted_by(insert_in_order(t, x, by, descending), by, descending),
        insert_in_order(t, x, by, descending).to_multiset() == t.to_multiset().insert(x),
    decreases t.len(),
{
    broadcast use vstd::seq_lib::group_to_multiset_ensures;
    if t.len() == 0 {
        assert(seq![x] == Seq::<Row>::empty().push(x));
    } else {
        let last = t.last();
        let tp = t.drop_last();
        assert(t == tp.push(last));
        assert(sorted_by(tp, by, descending));
        if before(x, last, by, descending) {
            lemma_insert_in_order(tp, x, by, descending);
            let r = insert_in_order(tp, x, by, descending);
            let full = r.push(last);
            assert forall|i: int, j: int| 0 <= i < j < full.len() implies !before(
                #[trigger] full[j],
                #[trigger] full[i],
                by,
                descending,
            ) by {
                if j == full.len() - 1 {
                    let e = full[i];
                    assert(r.contains(e));
                    assert(r.to_multiset().contains(e));
                    if e == x {
                        lemma_before_asymmetric(x, last, by, descending);
                    } else {
                        assert(tp.to_multiset().contains(e));
                        assert(tp.contains(e));
                        let k = choose|k: int| 0 <= k < tp.len() && tp[k] == e;
                        assert(t[k] == e);
                        assert(t[t.len() - 1] == last);
                    }
                } else {
                    assert(full[i] == r[i] && full[j] == r[j]);
                }
            }
        } else {
            let full = t.push(x);
            assert forall|i: int, j: int| 0 <= i < j < full.len() implies !before(
                #[trigger] full[j],
                #[trigger] full[i],
                by,
                descending,
            ) by {
                if j == full.len() - 1 {
                    if before(x, full[i], by, descending) {
                        lemma_before_connected(x, full[i], last, by, descending);
                        assert(full[i] == t[i]);
                        if i < t.len() - 1 {
                            assert(t[t.len() - 1] == last);
                        }
                    }
                } else {
                    assert(full[i] == t[i] && full[j] == t[j]);
                }
            }
        }
    }
}

/// The stable ordering of a report's rows is ordered as asked, and holds the same rows,
/// each as often as before.
pub proof fn law_sorted_rows(s: Seq<Row>, by: SortBy, descending: bool)
    ensures
        sorted_by(stable_sorted(s, by, descending), by, descending),
        stable_sorted(s, by, descending).to_multiset() == s.to_multiset(),
    decreases s.len(),
{
    broadcast use vstd::seq_lib::group_to_multiset_ensures;
    if s.len() > 0 {
        law_sorted_rows(s.drop_last(), by, descending);
        lemma_insert_in_order(stable_sorted(s.drop_last(), by, descending), s.last(), by, descending);
        assert(s == s.drop_last().push(s.last()));
    }
}

/// Whether any two different rows of `s` differ in column `by`.
pub open spec fn distinct_keys(s: Seq<Row>, by: SortBy) -> bool {
    forall|x: Row, y: Row|
        s.contains(x) && s.contains(y) && x != y ==> #[trigger] key_lt(x, y, by) || #[trigger] key_lt(y, x, by)
}

/// Two orderings of the same rows that tell every two different rows apart are equal.
proof fn lemma_sorted_unique(a: Seq<Row>, b: Seq<Row>, by: SortBy, descending: bool)
    requires
        sorted_by(a, by, descending),
        sorted_by(b, by, descending),
        a.to_multiset() == b.to_multiset(),
        distinct_keys(a, by),
    ensures
        a == b,
    decreases a.len(),
{
    broadcast use vstd::seq_lib::group_to_multiset_ensures;
    broadcast use vstd::multiset::group_multiset_axioms;
    vstd::seq_lib::to_multiset_len(a);
    vstd::seq_lib::to_multiset_len(b);
    if a.len() == 0 {
        assert(b.len() == 0);
        assert(a =~= b);
    } else {
        assert(b.len() == a.len());
        let x = a[0];
        let y = b[0];
        assert(a.to_multiset().contains(x));
        assert(b.contains(x));
        assert(a.contains(y)) by {
            assert(b.to_multiset().contains(y));
        }
        if x != y {
            let k = choose|k: int| 0 <= k < b.len() && b[k] == x;
            let l = choose|l: int| 0 <= l < a.len() && a[l] == y;
            assert(k > 0 && l > 0);
            assert(!before(b[k], b[0], by, descending));
            assert(!before(a[l], a[0], by, descending));
            assert(key_lt(x, y, by) || key_lt(y, x, by));
            assert(false);
        }
        let a2 = a.drop_first();
        let b2 = b.drop_first();
        assert(a.remove(0) == a2);
        assert(b.remove(0) == b2);
        assert(a2.to_multiset() == b2.to_multiset());
        assert(sorted_by(a2, by, descending)) by {
            assert forall|i: int, j: int| 0 <= i < j < a2.len() implies !before(
                #[trigger] a2[j],
                #[trigger] a2[i],
                by,
                descending,
            ) by {
                assert(a2[i] == a[i + 1] && a2[j] == a[j + 1]);
            }
        }
        assert(sorted_by(b2, by, descending)) by {
            assert forall|i: int, j: int| 0 <= i < j < b2.len() implies !before(
                #[trigger] b2[j],
                #[trigger] b2[i],
                by,
                descending,
            ) by {
                assert(b2[i] == b[i + 1] && b2[j] == b[j + 1]);
            }
        }
        assert(distinct_keys(a2, by)) by {
            assert forall|u: Row, v: Row| a2.contains(u) && a2.contains(v) && u != v implies #[trigger] key_lt(u, v, by)
                || #[trigger] key_lt(v, u, by) by {
                let i = choose|i: int| 0 <= i < a2.len() && a2[i] == u;
                let j = choose|j: int| 0 <= j < a2.len() && a2[j] == v;
                assert(a[i + 1] == u && a[j + 1] == v);
            }
        }
        lemma_sorted_unique(a2, b2, by, descending);
        assert(a =~= b) by {
            assert forall|i: int| 0 <= i < a.len() implies a[i] == b[i] by {
                if i > 0 {
                    assert(a[i] == a2[i - 1] && b[i] == b2[i - 1]);
                }
            }
        }
    }
}

/// Where no two different rows tie in the sort column, sorting in descending order gives
/// the ascending order reversed.
pub proof fn law_descending_reverses(s: Seq<Row>, by: SortBy)
    requires
        distinct_keys(s, by),
    ensures
        stable_sorted(s, by, true) == stable_sorted(s, by, false).reverse(),
{
    broadcast use vstd::seq_lib::group_to_multiset_ensures;
    let up = stable_sorted(s, by, false);
    let down = stable_sorted(s, by, true);
    law_sorted_rows(s, by, false);
    law_sorted_rows(s, by, true);
    let rev = up.reverse();
    up.lemma_reverse_to_multiset();
    assert(sorted_by(rev, by, true)) by {
        assert forall|i: int, j: int| 0 <= i < j < rev.len() implies !before(
            #[trigger] rev[j],
            #[trigger] rev[i],
            by,
            true,
        ) by {
            let n = up.len() as int;
            assert(rev[i] == up[n - 1 - i] && rev[j] == up[n - 1 - j]);
            assert(!before(up[n - 1 - i], up[n - 1 - j], by, false));
        }
    }
    assert(distinct_keys(down, by)) by {
        assert forall|u: Row, v: Row| down.contains(u) && down.contains(v) && u != v implies #[trigger] key_lt(u, v, by)
            || #[trigger] key_lt(v, u, by) by {
            assert(down.to_multiset().contains(u));
            assert(down.to_multiset().contains(v));
            assert(s.to_multiset().contains(u));
            assert(s.to_multiset().contains(v));
        }
    }
    lemma_sorted_unique(down, rev, by, true);
}

} // verus!
