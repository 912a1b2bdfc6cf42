//! What a report shows: which rows pass the size filter, the totals, the width of the path
//! column and how a long path is cut, the unit of a human-readable size, and colors.
use vstd::prelude::*;
use vstd::utf8::{decode_utf8, encode_utf8};
use crate::sorting::{Row, SortBy, before, sorted_by, stable_sorted, law_sorted_rows};
use crate::text::{push_char, push_str};
use crate::number::{decimal, decimal_string};

verus! {

broadcast use vstd::string::group_string_axioms;

/// The rows of `s` whose file is at least `min` bytes large now, in order.
pub open spec fn rows_at_least(s: Seq<Row>, min: u64) -> Seq<Row>
    decreases s.len(),
{
    if s.len() == 0 {
        s
    } else {
        let rest = rows_at_least(s.drop_last(), min);
        if s.last().stats.latest_size >= min {
            rest.push(s.last())
        } else {
            rest
        }
    }
}

/// Keeps the rows whose file is at least `min_size` bytes large now, in their order.
pub fn filter_min_size(rows: Vec<Row>, min_size: u64) -> (out: Vec<Row>)
    ensures
        out@ == rows_at_least(rows@, min_size),
{
    let ghost all = rows@;
    let mut kept: Vec<Row> = Vec::new();
    for r in it: rows.into_iter()
        invariant
            it.seq() == all,
            kept@ == rows_at_least(all.take(it.index() as int), min_size),
    {
        let ghost i = it.index();
        assert(all.take(i + 1).drop_last() == all.take(i as int));
        if r.stats.latest_size >= min_size {
            kept.push(r);
        }
    }
    assert(all.take(all.len() as int) == all);
    kept
}

/// The sum over the rows of `s` of the number that `f` gives each.
pub open spec fn row_sum(s: Seq<Row>, f: spec_fn(Row) -> nat) -> nat
    decreases s.len(),
{
    if s.len() == 0 {
        0
    } else {
        row_sum(s.drop_last(), f) + f(s.last())
    }
}

/// A file's current size.
pub open spec fn size_of_row() -> spec_fn(Row) -> nat {
    |r: Row| r.stats.latest_size as nat
}

/// A file's number of versions.
pub open spec fn versions_of_row() -> spec_fn(Row) -> nat {
    |r: Row| r.stats.versions as nat
}

/// A file's total uncompressed size.
pub open spec fn uncompressed_of_row() -> spec_fn(Row) -> nat {
    |r: Row| r.stats.total_uncompressed as nat
}

/// A file's total compressed size.
pub open spec fn compressed_of_row() -> spec_fn(Row) -> nat {
    |r: Row| r.stats.total_compressed as nat
}

/// The totals of a report: number of files, and the sums of the current sizes, versions,
/// uncompressed and compressed sizes of its files.
#[derive(Clone, Copy, Debug, PartialEq, Eq, Structural)]
pub struct Totals {
    pub files: u64,
    pub size: u64,
    pub versions: u64,
    pub uncompressed: u64,
    pub compressed: u64,
}

/// Whether every sum of the rows `s` fits in a `u64`.
pub open spec fn totals_fit(s: Seq<Row>) -> bool {
    &&& row_sum(s, size_of_row()) <= u64::MAX
    &&& row_sum(s, versions_of_row()) <= u64::MAX
    &&& row_sum(s, uncompressed_of_row()) <= u64::MAX
    &&& row_sum(s, compressed_of_row()) <= u64::MAX
}

/// The totals of the rows `s`, where they fit.
pub open spec fn totals_of(s: Seq<Row>) -> Totals {
    Totals {
        files: s.len() as u64,
        size: row_sum(s, size_of_row()) as u64,
        versions: row_sum(s, versions_of_row()) as u64,
        uncompressed: row_sum(s, uncompressed_of_row()) as u64,
        compressed: row_sum(s, compressed_of_row()) as u64,
    }
}

proof fn lemma_row_sum_grows(s: Seq<Row>, i: int, f: spec_fn(Row) -> nat)
    requires
        0 <= i <= s.len(),
    ensures
        row_sum(s.take(i), f) <= row_sum(s, f),
    decreases s.len() - i,
{
    if i < s.len() {
        lemma_row_sum_grows(s, i + 1, f);
        assert(s.take(i + 1).drop_last() == s.take(i));
    } else {
        assert(s.take(i) == s);
    }
}

/// The totals of a report's rows; `None` exactly when a sum exceeds `u64::MAX`.
pub fn report_totals(rows: &Vec<Row>) -> (r: Option<Totals>)
    ensures
        r is Some <==> totals_fit(rows@),
        r matches Some(t) ==> t == totals_of(rows@),
        r matches Some(t) ==> t.files == rows.len(),
{
    let ghost s = rows@;
    let mut size: u64 = 0;
    let mut versions: u64 = 0;
    let mut uncompressed: u64 = 0;
    let mut compressed: u64 = 0;
    let mut i: usize = 0;
    assert(s.take(0) == Seq::<Row>::empty());
    while i < rows.len()
        invariant
            i <= rows.len(),
            s == rows@,
            size == row_sum(s.take(i as int), size_of_row()),
            versions == row_sum(s.take(i as int), versions_of_row()),
            uncompressed == row_sum(s.take(i as int), uncompressed_of_row()),
            compressed == row_sum(s.take(i as int), compressed_of_row()),
        decreases rows.len() - i,
    {
        let st = rows[i].stats;
        assert(s.take(i + 1).drop_last() == s.take(i as int));
        assert(s.take(i + 1).last() == rows[i as int]);
        let a = size.checked_add(st.latest_size);
        let b = versions.checked_add(st.versions);
        let c = uncompressed.checked_add(st.total_uncompressed);
        let d = compressed.checked_add(st.total_compressed);
        if a.is_none() || b.is_none() || c.is_none() || d.is_none() {
            proof {
                lemma_row_sum_grows(s, i + 1, size_of_row());
                lemma_row_sum_grows(s, i + 1, versions_of_row());
                lemma_row_sum_grows(s, i + 1, uncompressed_of_row());
                lemma_row_sum_grows(s, i + 1, compressed_of_row());
            }
            return None;
        }
        size = a.unwrap();
        versions = b.unwrap();
        uncompressed = c.unwrap();
        compressed = d.unwrap();
        i += 1;
    }
    assert(s.take(rows.len() as int) == s);
    Some(Totals { files: rows.len() as u64, size, versions, uncompressed, compressed })
}

proof fn lemma_row_sum_remove(s: Seq<Row>, k: int, f: spec_fn(Row) -> nat)
    requires
        0 <= k < s.len(),
    ensures
        row_sum(s, f) == row_sum(s.remove(k), f) + f(s[k]),
    decreases s.len(),
{
    if k == s.len() - 1 {
        assert(s.remove(k) == s.drop_last());
    } else {
        lemma_row_sum_remove(s.drop_last(), k, f);
        assert(s.remove(k).drop_last() == s.drop_last().remove(k));
        assert(s.remove(k).last() == s.last());
    }
}

proof fn lemma_row_sum_permutation(a: Seq<Row>, b: Seq<Row>, f: spec_fn(Row) -> nat)
    requires
        a.to_multiset() == b.to_multiset(),
    ensures
        row_sum(a, f) == row_sum(b, f),
    decreases a.len(),
{
    broadcast use vstd::seq_lib::group_to_multiset_ensures;
    broadcast use vstd::multiset::group_multiset_axioms;
    vstd::seq_lib::to_multiset_len(a);
    vstd::seq_lib::to_multiset_len(b);
    if a.len() > 0 {
        let x = a.last();
        assert(a.to_multiset().contains(x));
        assert(b.contains(x));
        let k = choose|k: int| 0 <= k < b.len() && b[k] == x;
        assert(a == a.drop_last().push(x));
        assert(a.drop_last().to_multiset() == a.to_multiset().remove(x));
        assert(b.remove(k).to_multiset() == b.to_multiset().remove(x));
        lemma_row_sum_permutation(a.drop_last(), b.remove(k), f);
        lemma_row_sum_remove(b, k, f);
    } else {
        assert(b.len() == 0);
    }
}

/// Sorting a report does not change its totals.
pub proof fn law_totals_ignore_order(s: Seq<Row>, by: SortBy, descending: bool)
    ensures
        totals_fit(stable_sorted(s, by, descending)) == totals_fit(s),
        totals_of(stable_sorted(s, by, descending)) == totals_of(s),
{
    broadcast use vstd::seq_lib::group_to_multiset_ensures;
    let t = stable_sorted(s, by, descending);
    law_sorted_rows(s, by, descending);
    vstd::seq_lib::to_multiset_len(s);
    vstd::seq_lib::to_multiset_len(t);
    lemma_row_sum_permutation(t, s, size_of_row());
    lemma_row_sum_permutation(t, s, versions_of_row());
    lemma_row_sum_permutation(t, s, uncompressed_of_row());
    lemma_row_sum_permutation(t, s, compressed_of_row());
}

/// The longest path of `s`, in UTF-8 bytes.
pub open spec fn longest_path(s: Seq<Row>) -> nat
    decreases s.len(),
{
    if s.len() == 0 {
        0
    } else {
        let m = longest_path(s.drop_last());
        let l = encode_utf8(s.last().path@).len();
        if l > m {
            l
        } else {
            m
        }
    }
}

/// The width of the path column: the longest path, in bytes, kept between 20 and 60; 40
/// when there are no rows.
pub open spec fn path_width_of(s: Seq<Row>) -> nat {
    if s.len() == 0 {
        40
    } else {
        let m = longest_path(s);
        if m > 60 {
            60
        } else if m < 20 {
            20
        } else {
            m
        }
    }
}

/// The width of the path column of a table of `rows`.
pub fn path_column_width(rows: &Vec<Row>) -> (w: usize)
    ensures
        w == path_width_of(rows@),
        20 <= w <= 60,
{
    let ghost s = rows@;
    let mut longest: usize = 0;
    let mut i: usize = 0;
    assert(s.take(0) == Seq::<Row>::empty());
    while i < rows.len()
        invariant
            i <= rows.len(),
            s == rows@,
            longest == longest_path(s.take(i as int)),
        decreases rows.len() - i,
    {
        let l = rows[i].path.as_str().as_bytes().len();
        assert(s.take(i + 1).drop_last() == s.take(i as int));
        assert(s.take(i + 1).last() == rows[i as int]);
        if l > longest {
            longest = l;
        }
        i += 1;
    }
    assert(s.take(rows.len() as int) == s);
    if rows.len() == 0 {
        40
    } else if longest > 60 {
        60
    } else if longest < 20 {
        20
    } else {
        longest
    }
}

/// Where a path of `len` bytes is cut to fit a column `width` wide: its last `width - 3`
/// bytes are kept, after three dots.
pub open spec fn cut_at(len: nat, width: nat) -> int {
    len - (width - 3)
}

/// A path as the table shows it in a column `width` wide: unchanged when its UTF-8 bytes fit,
/// else `...` and its last `width - 3` bytes. The cut must fall on a character boundary.
pub fn display_path(path: &str, width: usize) -> (r: String)
    requires
        width >= 3,
        encode_utf8(path@).len() > width ==> vstd::utf8::is_char_boundary(
            encode_utf8(path@),
            cut_at(encode_utf8(path@).len(), width as nat),
        ),
    ensures
        encode_utf8(r@).len() <= width,
        encode_utf8(path@).len() <= width ==> r@ == path@,
        encode_utf8(path@).len() > width ==> r@ == seq!['.', '.', '.'] + decode_utf8(
            encode_utf8(path@).subrange(
                cut_at(encode_utf8(path@).len(), width as nat),
                encode_utf8(path@).len() as int,
            ),
        ),
{
    let len = path.as_bytes().len();
    proof {
        vstd::utf8::encode_utf8_valid_utf8(path@);
    }
    if len <= width {
        return path.to_owned();
    }
    let cut = len - (width - 3);
    let (_, tail) = path.split_at(cut);
    let mut r = String::new();
    push_char(&mut r, '.');
    push_char(&mut r, '.');
    push_char(&mut r, '.');
    push_str(&mut r, tail);
    proof {
        vstd::utf8::encode_utf8_decode_utf8(tail@);
        assert(r@ == seq!['.', '.', '.'] + tail@);
        assert(encode_utf8(tail@) == encode_utf8(path@).subrange(cut as int, len as int));
        lemma_encode_concat(seq!['.', '.', '.'], tail@);
        assert(encode_utf8(seq!['.', '.', '.']).len() == 3) by {
            reveal_with_fuel(encode_utf8, 4);
        }
    }
    r
}

/// The UTF-8 encoding of two texts one after the other is their encodings one after the other.
proof fn lemma_encode_concat(a: Seq<char>, b: Seq<char>)
    ensures
        encode_utf8(a + b) == encode_utf8(a) + encode_utf8(b),
    decreases a.len(),
{
    if a.len() == 0 {
        assert(a + b == b);
    } else {
        lemma_encode_concat(a.drop_first(), b);
        assert((a + b).drop_first() == a.drop_first() + b);
        assert((a + b)[0] == a[0]);
    }
}

/// The unit in which a human-readable size is written.
#[derive(Clone, Copy, Debug, PartialEq, Eq, Structural)]
pub enum SizeUnit {
    Bytes,
    Kilobytes,
    Megabytes,
    Gigabytes,
}

/// The unit for a size of `bytes`: bytes below 1024, kilobytes below 1024 × 1024, megabytes
/// below 1024 × 1024 × 1024, gigabytes from there on.
pub open spec fn unit_for(bytes: u64) -> SizeUnit {
    if bytes < 1024 {
        SizeUnit::Bytes
    } else if bytes < 1024 * 1024 {
        SizeUnit::Kilobytes
    } else if bytes < 1024 * 1024 * 1024 {
        SizeUnit::Megabytes
    } else {
        SizeUnit::Gigabytes
    }
}

/// Chooses the unit in which a human-readable size of `bytes` is written.
pub fn size_unit(bytes: u64) -> (u: SizeUnit)
    ensures
        u == unit_for(bytes),
{
    if bytes < 1024 {
        SizeUnit::Bytes
    } else if bytes < 1024 * 1024 {
        SizeUnit::Kilobytes
    } else if bytes < 1024 * 1024 * 1024 {
        SizeUnit::Megabytes
    } else {
        SizeUnit::Gigabytes
    }
}

/// Files smaller than this many bytes get no color.
pub const COLOR_THRESHOLD: u64 = 1024;

/// How well a file compresses: its ratio is below 50%, from 50% to 80%, or above 80%.
#[derive(Clone, Copy, Debug, PartialEq, Eq, Structural)]
pub enum RatioBand {
    Good,
    Moderate,
    Poor,
}

/// ANSI color codes for terminal output.
#[derive(Clone, Copy, Debug)]
pub struct Colors {
    pub reset: &'static str,
    pub green: &'static str,
    pub orange: &'static str,
    pub red: &'static str,
    pub bold: &'static str,
}

impl Colors {
    /// The escape codes when the output goes to a terminal, else empty codes.
    pub fn for_output(use_colors: bool) -> (c: Colors)
        ensures
            use_colors ==> c.reset@ == "\x1b[0m"@ && c.green@ == "\x1b[32m"@ && c.orange@
                == "\x1b[33m"@ && c.red@ == "\x1b[31m"@ && c.bold@ == "\x1b[1m"@,
            !use_colors ==> c.reset@ == ""@ && c.green@ == ""@ && c.orange@ == ""@ && c.red@
                == ""@ && c.bold@ == ""@,
    {
        if use_colors {
            Colors {
                reset: "\x1b[0m",
                green: "\x1b[32m",
                orange: "\x1b[33m",
                red: "\x1b[31m",
                bold: "\x1b[1m",
            }
        } else {
            Colors { reset: "", green: "", orange: "", red: "", bold: "" }
        }
    }
}

/// The color of a ratio: none for files below `COLOR_THRESHOLD` bytes, else green for a
/// good ratio, orange for a moderate one, red for a poor one.
pub fn get_color(colors: &Colors, band: RatioBand, size: u64) -> (c: &'static str)
    ensures
        size < COLOR_THRESHOLD ==> c@ == ""@,
        size >= COLOR_THRESHOLD ==> c == match band {
            RatioBand::Good => colors.green,
            RatioBand::Moderate => colors.orange,
            RatioBand::Poor => colors.red,
        },
{
    if size < COLOR_THRESHOLD {
        return "";
    }
    match band {
        RatioBand::Good => colors.green,
        RatioBand::Moderate => colors.orange,
        RatioBand::Poor => colors.red,
    }
}

/// A size threshold of zero keeps every row.
pub proof fn law_zero_threshold_keeps_all(s: Seq<Row>)
    ensures
        rows_at_least(s, 0) == s,
    decreases s.len(),
{
    if s.len() > 0 {
        law_zero_threshold_keeps_all(s.drop_last());
        assert(s == s.drop_last().push(s.last()));
    }
}

/// Filtering by size keeps a sorted report sorted.
pub proof fn law_filter_keeps_order(s: Seq<Row>, min: u64, by: SortBy, descending: bool)
    requires
        sorted_by(s, by, descending),
    ensures
        sorted_by(rows_at_least(s, min), by, descending),
    decreases s.len(),
{
    if s.len() > 0 {
        let p = s.drop_last();
        assert(sorted_by(p, by, descending)) by {
            assert forall|i: int, j: int| 0 <= i < j < p.len() implies !before(#[trigger] p[j], #[trigger] p[i], by, descending) by {
                assert(p[i] == s[i] && p[j] == s[j]);
            }
        }
        law_filter_keeps_order(p, min, by, descending);
        lemma_rows_at_least_from(p, min);
        let r = rows_at_least(p, min);
        if s.last().stats.latest_size >= min {
            let full = r.push(s.last());
            assert forall|i: int, j: int| 0 <= i < j < full.len() implies !before(#[trigger] full[j], #[trigger] full[i], by, descending) by {
                if j == full.len() - 1 {
                    assert(r[i] == full[i]);
                    assert(r.contains(full[i]));
                    assert(p.contains(full[i]));
                    let k = choose|k: int| 0 <= k < p.len() && #[trigger] p[k] == full[i];
                    assert(s[k] == full[i]);
                    assert(s[s.len() - 1] == s.last());
                } else {
                    assert(full[i] == r[i] && full[j] == r[j]);
                }
            }
        }
    }
}

/// Raising the size threshold keeps a part of the rows: with `min_low <= min_high`, the rows
/// kept at `min_high` are exactly those kept at `min_low` filtered again at `min_high`, so
/// every one of them is also kept at `min_low`, in the same order.
pub proof fn law_higher_threshold_keeps_subset(s: Seq<Row>, min_low: u64, min_high: u64)
    requires
        min_low <= min_high,
    ensures
        rows_at_least(s, min_high) == rows_at_least(rows_at_least(s, min_low), min_high),
        forall|x: Row| rows_at_least(s, min_high).contains(x) ==> rows_at_least(s, min_low).contains(x),
    decreases s.len(),
{
    if s.len() > 0 {
        let p = s.drop_last();
        law_higher_threshold_keeps_subset(p, min_low, min_high);
        let low = rows_at_least(p, min_low);
        if s.last().stats.latest_size >= min_low {
            let pushed = low.push(s.last());
            assert(pushed.drop_last() == low);
            assert(pushed.last() == s.last());
        }
    }
    lemma_rows_at_least_from(rows_at_least(s, min_low), min_high);
}

/// The size filter keeps exactly the rows whose file is at least `min` bytes large now
/// (`latest_size`), in their order: every kept row is that large, and every row of the input
/// that large is kept.
pub proof fn law_size_filter_keeps_exactly_large_files(s: Seq<Row>, min: u64)
    ensures
        rows_at_least(s, min) == s.filter(|r: Row| r.stats.latest_size >= min),
        forall|i: int| 0 <= i < rows_at_least(s, min).len() ==> #[trigger] rows_at_least(s, min)[i].stats.latest_size >= min,
        forall|i: int| 0 <= i < s.len() && s[i].stats.latest_size >= min ==> rows_at_least(s, min).contains(#[trigger] s[i]),
    decreases s.len(),
{
    let pred = |r: Row| r.stats.latest_size >= min;
    reveal(Seq::filter);
    if s.len() > 0 {
        law_size_filter_keeps_exactly_large_files(s.drop_last(), min);
        assert(rows_at_least(s, min) == s.filter(pred));
    }
    assert forall|i: int| 0 <= i < rows_at_least(s, min).len() implies #[trigger] rows_at_least(s, min)[i].stats.latest_size >= min by {
        s.lemma_filter_pred(pred, i);
    }
    assert forall|i: int| 0 <= i < s.len() && s[i].stats.latest_size >= min implies rows_at_least(s, min).contains(#[trigger] s[i]) by {
        s.lemma_filter_contains(pred, i);
    }
}

/// The totals count one file per row: the file count is the number of rows, whether or not
/// a file is still present now.
pub proof fn law_totals_count_every_row(s: Seq<Row>)
    requires
        s.len() <= u64::MAX,
    ensures
        totals_of(s).files == s.len(),
{
}

/// The width of the path column: at least the byte length of every path, up to 60; between
/// 20 and 60; with rows, no wider than 20 or the longest path; 40 without rows.
pub proof fn law_path_width_fits_paths(s: Seq<Row>)
    ensures
        forall|i: int| 0 <= i < s.len() ==> path_width_of(s) >= #[trigger] encode_utf8(s[i].path@).len()
            || path_width_of(s) == 60,
        20 <= path_width_of(s) <= 60,
        s.len() > 0 ==> (path_width_of(s) <= 20 || exists|i: int| 0 <= i < s.len() && #[trigger] encode_utf8(s[i].path@).len() >= path_width_of(s)),
        s.len() == 0 ==> path_width_of(s) == 40,
{
    lemma_longest_path(s);
    if s.len() > 0 && longest_path(s) >= 20 {
        let k = choose|k: int| 0 <= k < s.len() && encode_utf8(s[k].path@).len() == longest_path(s);
        assert(encode_utf8(s[k].path@).len() >= path_width_of(s));
    }
}

/// The longest path is at least as long as each path, and is the length of one of them.
proof fn lemma_longest_path(s: Seq<Row>)
    ensures
        forall|i: int| 0 <= i < s.len() ==> longest_path(s) >= #[trigger] encode_utf8(s[i].path@).len(),
        s.len() > 0 ==> exists|k: int| 0 <= k < s.len() && encode_utf8(s[k].path@).len() == longest_path(s),
    decreases s.len(),
{
    if s.len() > 0 {
        let p = s.drop_last();
        lemma_longest_path(p);
        assert forall|i: int| 0 <= i < s.len() implies longest_path(s) >= #[trigger] encode_utf8(s[i].path@).len() by {
            if i < p.len() {
                assert(s[i] == p[i]);
            }
        }
        if encode_utf8(s.last().path@).len() > longest_path(p) || p.len() == 0 {
            assert(encode_utf8(s[s.len() - 1].path@).len() == longest_path(s));
        } else {
            let k = choose|k: int| 0 <= k < p.len() && encode_utf8(p[k].path@).len() == longest_path(p);
            assert(s[k] == p[k]);
        }
    }
}

/// Every row that the size filter keeps is a row of the input.
proof fn lemma_rows_at_least_from(s: Seq<Row>, min: u64)
    ensures
        forall|x: Row| rows_at_least(s, min).contains(x) ==> s.contains(x),
    decreases s.len(),
{
    if s.len() > 0 {
        lemma_rows_at_least_from(s.drop_last(), min);
        let r = rows_at_least(s.drop_last(), min);
        assert forall|x: Row| rows_at_least(s, min).contains(x) implies s.contains(x) by {
            if r.contains(x) {
                assert(s.drop_last().contains(x));
                let k = choose|k: int| 0 <= k < s.drop_last().len() && #[trigger] s.drop_last()[k] == x;
                assert(s[k] == x);
            } else {
                assert(x == s.last());
                assert(s[s.len() - 1] == x);
            }
        }
    }
}

/// The header line of the CSV report.
pub const CSV_HEADER: &'static str = "path,size,versions,total_uncompressed,total_compressed,ratio";

/// The fields of a CSV record before the ratio: the path, the current size, the number of
/// versions, and the total uncompressed and compressed sizes, separated by commas.
pub open spec fn csv_prefix(r: Row) -> Seq<char> {
    r.path@ + seq![','] + decimal(r.stats.latest_size as nat) + seq![','] + decimal(
        r.stats.versions as nat,
    ) + seq![','] + decimal(r.stats.total_uncompressed as nat) + seq![','] + decimal(
        r.stats.total_compressed as nat,
    )
}

/// Writes the fields of the CSV record of `r` that come before its ratio (see `csv_prefix`).
pub fn csv_fields(r: &Row) -> (s: String)
    ensures
        s@ == csv_prefix(*r),
{
    let mut s = r.path.clone();
    push_char(&mut s, ',');
    push_str(&mut s, decimal_string(r.stats.latest_size).as_str());
    push_char(&mut s, ',');
    push_str(&mut s, decimal_string(r.stats.versions).as_str());
    push_char(&mut s, ',');
    push_str(&mut s, decimal_string(r.stats.total_uncompressed).as_str());
    push_char(&mut s, ',');
    push_str(&mut s, decimal_string(r.stats.total_compressed).as_str());
    assert(s@ =~= csv_prefix(*r));
    s
}

} // verus!
