use git_compression_stats::git::TreeEntry;
use git_compression_stats::history::{
    current_tree_stats, history_stats, latest_sizes, BlobHistory, SizeTable,
};
use git_compression_stats::stats::{absorb_repo, report_key_string, FileStats, StatsTable};

fn sizes() -> SizeTable {
    let mut t = SizeTable::new();
    for line in ["a1 100 40", "a2 300 90", "b1 50 60", "a1 120 45", "zz missing"] {
        t.record_line(line);
    }
    t
}

fn entry(path: &str, oid: &str) -> TreeEntry {
    TreeEntry { path: path.to_string(), oid: oid.to_string() }
}

fn stats(v: u64, tu: u64, tc: u64, l: u64) -> FileStats {
    FileStats { versions: v, total_uncompressed: tu, total_compressed: tc, latest_size: l }
}

#[test]
fn size_table_keeps_the_last_line_for_an_object() {
    let t = sizes();
    assert_eq!(t.sizes_of("a1"), (120, 45));
    assert_eq!(t.sizes_of("a2"), (300, 90));
    assert_eq!(t.sizes_of("zz"), (0, 0));
    assert_eq!(t.sizes_of("nothing"), (0, 0));
}

#[test]
fn latest_sizes_use_uncompressed_size_of_current_blob() {
    let t = sizes();
    let latest = latest_sizes(&vec![entry("a.txt", "a2"), entry("b.txt", "b1"), entry("c.txt", "none")], &t);
    assert_eq!(latest.get("a.txt"), Some(&300));
    assert_eq!(latest.get("b.txt"), Some(&50));
    assert_eq!(latest.get("c.txt"), Some(&0));
    assert_eq!(latest.get("d.txt"), None);
}

fn history(lines: &[&str]) -> BlobHistory {
    let mut h = BlobHistory::new();
    for l in lines {
        h.record_line(l);
    }
    h
}

const LINES: [&str; 5] = [
    ":000000 100644 0000000 a1 A\ta.txt",
    ":100644 100644 a1 a2 M\ta.txt",
    ":000000 100644 0000000 b1 A\tb.txt",
    ":100644 100644 a2 a1 M\ta.txt",
    ":100644 000000 b1 0000000 D\tb.txt",
];

#[test]
fn history_counts_distinct_blobs_and_sums_their_sizes() {
    let t = sizes();
    let h = history(&LINES);
    let latest = latest_sizes(&vec![entry("a.txt", "a1")], &t);
    let table = history_stats(&h, &t, &latest).unwrap();
    assert_eq!(table.len(), 2);
    assert_eq!(table.get("a.txt"), Some(&stats(2, 420, 135, 120)));
    assert_eq!(table.get("b.txt"), Some(&stats(1, 50, 60, 0)));
}

#[test]
fn history_in_chunks_merges_to_the_same_statistics() {
    let t = sizes();
    let latest = latest_sizes(&vec![entry("a.txt", "a1")], &t);
    let whole = history_stats(&history(&LINES), &t, &latest).unwrap();
    for cut in 0..=LINES.len() {
        let mut first = history(&LINES[..cut]);
        let second = history(&LINES[cut..]);
        first.merge(&second);
        let merged = history_stats(&first, &t, &latest).unwrap();
        for path in ["a.txt", "b.txt"] {
            assert_eq!(merged.get(path), whole.get(path));
        }
        assert_eq!(merged.len(), whole.len());
    }
}

#[test]
fn history_sums_that_overflow_give_none() {
    let mut t = SizeTable::new();
    t.record_line("x 18446744073709551615 1");
    t.record_line("y 1 1");
    let h = history(&[":0 1 0 x A\tf", ":0 1 0 y A\tf"]);
    let latest = latest_sizes(&vec![], &t);
    assert!(history_stats(&h, &t, &latest).is_none());
}

#[test]
fn current_tree_counts_one_version_per_file() {
    let t = sizes();
    let first = vec![entry("a.txt", "a2"), entry("old.txt", "b1")];
    let latest = latest_sizes(&first, &t);
    let table = current_tree_stats(&latest, &vec![entry("a.txt", "a2"), entry("new.txt", "b1")], &t);
    assert_eq!(table.get("a.txt"), Some(&stats(1, 300, 90, 300)));
    assert_eq!(table.get("new.txt"), Some(&stats(1, 50, 60, 50)));
    // Only in the first listing: its current size, no sums.
    assert_eq!(table.get("old.txt"), Some(&stats(1, 0, 0, 50)));
}

fn table(rows: &[(&str, FileStats)]) -> StatsTable {
    let mut t = StatsTable::new();
    for (p, s) in rows {
        t.insert(p.to_string(), *s);
    }
    t
}

#[test]
fn single_repository_is_reported_unchanged() {
    let repo = table(&[("a", stats(2, 10, 5, 4)), ("b", stats(1, 3, 3, 3))]);
    let mut all = StatsTable::new();
    assert!(absorb_repo(&mut all, None, &repo));
    assert_eq!(all.len(), 2);
    assert_eq!(all.get("a"), Some(&stats(2, 10, 5, 4)));
    assert_eq!(all.get("b"), Some(&stats(1, 3, 3, 3)));
}

#[test]
fn several_repositories_are_prefixed_and_accumulated() {
    let r1 = table(&[("a", stats(2, 10, 5, 4))]);
    let r2 = table(&[("a", stats(1, 3, 2, 3))]);
    let mut all = StatsTable::new();
    assert!(absorb_repo(&mut all, Some("/r1"), &r1));
    assert!(absorb_repo(&mut all, Some("/r2"), &r2));
    assert_eq!(all.get("/r1/a"), Some(&stats(2, 10, 5, 4)));
    assert_eq!(all.get("/r2/a"), Some(&stats(1, 3, 2, 3)));
    // The same key twice adds the counts and keeps the later latest size.
    assert!(absorb_repo(&mut all, Some("/r1"), &r2));
    assert_eq!(all.get("/r1/a"), Some(&stats(3, 13, 7, 3)));
}

#[test]
fn absorbing_reports_overflow() {
    let r = table(&[("a", stats(u64::MAX, 0, 0, 0))]);
    let mut all = StatsTable::new();
    assert!(absorb_repo(&mut all, None, &r));
    assert!(!absorb_repo(&mut all, None, &r));
}

#[test]
fn report_key_joins_with_a_slash() {
    assert_eq!(report_key_string(Some("repo"), "src/x.rs"), "repo/src/x.rs");
    assert_eq!(report_key_string(None, "src/x.rs"), "src/x.rs");
}

#[test]
fn merging_histories_in_either_order_gives_the_same_statistics() {
    let t = sizes();
    let latest = latest_sizes(&vec![], &t);
    let mut ab = history(&LINES[..2]);
    ab.merge(&history(&LINES[2..]));
    let mut ba = history(&LINES[2..]);
    ba.merge(&history(&LINES[..2]));
    let x = history_stats(&ab, &t, &latest).unwrap();
    let y = history_stats(&ba, &t, &latest).unwrap();
    assert_eq!(x.len(), y.len());
    for path in ["a.txt", "b.txt"] {
        assert_eq!(x.get(path), y.get(path));
    }
}

#[test]
fn a_blob_introduced_twice_counts_once() {
    let t = sizes();
    let latest = latest_sizes(&vec![], &t);
    let line = ":000000 100644 0000000 a2 A\tc.txt";
    let table = history_stats(&history(&[line, line, line]), &t, &latest).unwrap();
    assert_eq!(table.get("c.txt"), Some(&stats(1, 300, 90, 0)));
}

#[test]
fn merging_three_histories_in_any_grouping_agrees() {
    let t = sizes();
    let latest = latest_sizes(&vec![], &t);
    let (x, y, z) = (&LINES[..1], &LINES[1..3], &LINES[3..]);
    let mut left = history(x);
    left.merge(&history(y));
    left.merge(&history(z));
    let mut yz = history(y);
    yz.merge(&history(z));
    let mut right = history(x);
    right.merge(&yz);
    let l = history_stats(&left, &t, &latest).unwrap();
    let r = history_stats(&right, &t, &latest).unwrap();
    assert_eq!(l.len(), r.len());
    for path in ["a.txt", "b.txt"] {
        assert_eq!(l.get(path), r.get(path));
    }
}

#[test]
fn any_chunking_merged_in_any_order_gives_the_same_statistics() {
    let t = sizes();
    let latest = latest_sizes(&vec![entry("a.txt", "a1")], &t);
    let whole = history_stats(&history(&LINES), &t, &latest).unwrap();
    let chunks = [&LINES[..2], &LINES[2..3], &LINES[3..]];
    let orders = [[0, 1, 2], [0, 2, 1], [1, 0, 2], [1, 2, 0], [2, 0, 1], [2, 1, 0]];
    for order in orders {
        let mut merged = BlobHistory::new();
        for i in order {
            merged.merge(&history(chunks[i]));
        }
        let table = history_stats(&merged, &t, &latest).unwrap();
        assert_eq!(table.len(), whole.len());
        for path in ["a.txt", "b.txt"] {
            assert_eq!(table.get(path), whole.get(path));
        }
    }
}
