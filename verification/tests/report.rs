use git_compression_stats::report::{
    csv_fields, CSV_HEADER, display_path, filter_min_size, get_color, path_column_width, report_totals, size_unit,
    Colors, RatioBand, SizeUnit, Totals,
};
use git_compression_stats::scan::{
    history_chunk_size, history_chunk_size_for, visit_dir, DirVisit,
};
use git_compression_stats::sorting::{sort_rows, Row, SortBy};
use git_compression_stats::stats::FileStats;

fn ratio_rank(s: &FileStats) -> u64 {
    let r = if s.total_uncompressed > 0 {
        s.total_compressed as f64 / s.total_uncompressed as f64
    } else {
        0.0
    };
    r.to_bits()
}

fn row(path: &str, v: u64, tu: u64, tc: u64, l: u64) -> Row {
    let stats = FileStats { versions: v, total_uncompressed: tu, total_compressed: tc, latest_size: l };
    Row { path: path.to_string(), stats, ratio_rank: ratio_rank(&stats) }
}

fn sample() -> Vec<Row> {
    vec![
        row("src/main.rs", 4, 32023, 5620, 15379),
        row(".gitignore", 1, 8, 17, 8),
        row("Cargo.toml", 2, 542, 210, 288),
        row("Cargo.lock", 2, 109643, 14053, 56324),
    ]
}

fn paths(rows: &[Row]) -> Vec<&str> {
    rows.iter().map(|r| r.path.as_str()).collect()
}

#[test]
fn sort_by_path_uses_byte_order() {
    let mut rows = sample();
    sort_rows(&mut rows, SortBy::Path, false);
    assert_eq!(paths(&rows), vec![".gitignore", "Cargo.lock", "Cargo.toml", "src/main.rs"]);
    let mut rows = vec![row("é", 1, 1, 1, 1), row("z", 1, 1, 1, 1), row("Z", 1, 1, 1, 1)];
    sort_rows(&mut rows, SortBy::Path, false);
    assert_eq!(paths(&rows), vec!["Z", "z", "é"]);
}

#[test]
fn sort_by_each_numeric_column() {
    let mut rows = sample();
    sort_rows(&mut rows, SortBy::Size, false);
    assert_eq!(paths(&rows), vec![".gitignore", "Cargo.toml", "src/main.rs", "Cargo.lock"]);
    sort_rows(&mut rows, SortBy::Uncompressed, false);
    assert_eq!(paths(&rows), vec![".gitignore", "Cargo.toml", "src/main.rs", "Cargo.lock"]);
    sort_rows(&mut rows, SortBy::Compressed, false);
    assert_eq!(paths(&rows), vec![".gitignore", "Cargo.toml", "src/main.rs", "Cargo.lock"]);
    sort_rows(&mut rows, SortBy::Ratio, false);
    assert_eq!(paths(&rows), vec!["Cargo.lock", "src/main.rs", "Cargo.toml", ".gitignore"]);
}

#[test]
fn sort_is_stable_for_ties() {
    let mut rows = sample();
    sort_rows(&mut rows, SortBy::Versions, false);
    assert_eq!(paths(&rows), vec![".gitignore", "Cargo.toml", "Cargo.lock", "src/main.rs"]);
    let mut rows = sample();
    sort_rows(&mut rows, SortBy::Versions, true);
    // Ties keep their order also when descending.
    assert_eq!(paths(&rows), vec!["src/main.rs", "Cargo.toml", "Cargo.lock", ".gitignore"]);
}

#[test]
fn descending_reverses_when_keys_differ() {
    for by in [SortBy::Path, SortBy::Size, SortBy::Ratio] {
        let mut up = sample();
        sort_rows(&mut up, by, false);
        let mut down = sample();
        sort_rows(&mut down, by, true);
        let mut rev = paths(&up);
        rev.reverse();
        assert_eq!(paths(&down), rev);
    }
}

#[test]
fn size_filter_keeps_order_and_large_files() {
    let rows = filter_min_size(sample(), 1024);
    assert_eq!(paths(&rows), vec!["src/main.rs", "Cargo.lock"]);
    let rows = filter_min_size(sample(), 0);
    assert_eq!(rows.len(), 4);
    let rows = filter_min_size(sample(), u64::MAX);
    assert!(rows.is_empty());
}

#[test]
fn totals_match_the_readme_example() {
    let t = report_totals(&sample()).unwrap();
    assert_eq!(
        t,
        Totals { files: 4, size: 71999, versions: 9, uncompressed: 142216, compressed: 19900 }
    );
    let mut sorted = sample();
    sort_rows(&mut sorted, SortBy::Ratio, true);
    assert_eq!(report_totals(&sorted), Some(t));
    assert_eq!(
        report_totals(&vec![]),
        Some(Totals { files: 0, size: 0, versions: 0, uncompressed: 0, compressed: 0 })
    );
}

#[test]
fn totals_that_overflow_give_none() {
    let rows = vec![row("a", 1, 1, 1, u64::MAX), row("b", 1, 1, 1, 1)];
    assert_eq!(report_totals(&rows), None);
}

#[test]
fn path_column_width_is_clamped() {
    assert_eq!(path_column_width(&vec![]), 40);
    assert_eq!(path_column_width(&sample()), 20);
    let long = "d/".repeat(20) + "file.rs";
    assert_eq!(path_column_width(&vec![row(&long, 1, 1, 1, 1)]), 47);
    let longer = "x".repeat(100);
    assert_eq!(path_column_width(&vec![row(&longer, 1, 1, 1, 1)]), 60);
    // Width counts bytes.
    assert_eq!(path_column_width(&vec![row(&"é".repeat(15), 1, 1, 1, 1)]), 30);
}

#[test]
fn display_path_cuts_long_paths() {
    assert_eq!(display_path("short.rs", 20), "short.rs");
    assert_eq!(display_path("abcdefghij", 10), "abcdefghij");
    assert_eq!(display_path("abcdefghijk", 10), "...efghijk");
    assert_eq!(display_path("aéb", 3), "...");
    assert_eq!(display_path("xxxxéé", 7), "...éé");
    assert_eq!(display_path("xxxéé", 7), "xxxéé");
}

#[test]
fn size_units_follow_powers_of_1024() {
    assert_eq!(size_unit(0), SizeUnit::Bytes);
    assert_eq!(size_unit(1023), SizeUnit::Bytes);
    assert_eq!(size_unit(1024), SizeUnit::Kilobytes);
    assert_eq!(size_unit(1024 * 1024 - 1), SizeUnit::Kilobytes);
    assert_eq!(size_unit(1024 * 1024), SizeUnit::Megabytes);
    assert_eq!(size_unit(1024 * 1024 * 1024 - 1), SizeUnit::Megabytes);
    assert_eq!(size_unit(1024 * 1024 * 1024), SizeUnit::Gigabytes);
    assert_eq!(size_unit(u64::MAX), SizeUnit::Gigabytes);
}

#[test]
fn colors_for_terminal_and_plain_output() {
    let c = Colors::for_output(true);
    assert_eq!((c.reset, c.green, c.orange, c.red, c.bold), ("\x1b[0m", "\x1b[32m", "\x1b[33m", "\x1b[31m", "\x1b[1m"));
    let p = Colors::for_output(false);
    assert_eq!((p.reset, p.green, p.orange, p.red, p.bold), ("", "", "", "", ""));
}

#[test]
fn small_files_get_no_color() {
    let c = Colors::for_output(true);
    assert_eq!(get_color(&c, RatioBand::Poor, 1023), "");
    assert_eq!(get_color(&c, RatioBand::Good, 1024), "\x1b[32m");
    assert_eq!(get_color(&c, RatioBand::Moderate, 5000), "\x1b[33m");
    assert_eq!(get_color(&c, RatioBand::Poor, 5000), "\x1b[31m");
}

#[test]
fn chunk_sizes() {
    assert_eq!(history_chunk_size_for(0, 8), 100);
    assert_eq!(history_chunk_size_for(100_000, 8), 3125);
    assert_eq!(history_chunk_size_for(3_200, 8), 100);
    assert_eq!(history_chunk_size_for(3_232, 1), 808);
    let pool = rayon::current_num_threads();
    assert_eq!(history_chunk_size(1_000_000), (1_000_000 / (pool * 4)).max(100));
}

#[test]
fn csv_fields_match_the_readme_example() {
    assert_eq!(CSV_HEADER, "path,size,versions,total_uncompressed,total_compressed,ratio");
    let rows = sample();
    let lines: Vec<String> = rows.iter().map(csv_fields).collect();
    assert_eq!(
        lines,
        vec![
            "src/main.rs,15379,4,32023,5620",
            ".gitignore,8,1,8,17",
            "Cargo.toml,288,2,542,210",
            "Cargo.lock,56324,2,109643,14053",
        ]
    );
}

#[test]
fn filtering_a_sorted_report_keeps_it_sorted() {
    let mut rows = sample();
    sort_rows(&mut rows, SortBy::Compressed, true);
    let kept = filter_min_size(rows, 100);
    assert_eq!(paths(&kept), vec!["Cargo.lock", "src/main.rs", "Cargo.toml"]);
}

#[test]
fn displayed_paths_fit_the_column() {
    for (p, w) in [("src/main.rs", 20), ("abcdefghijklmnopqrstuvwxyz", 20), ("xxxxéé", 7), ("aéb", 3)] {
        assert!(display_path(p, w).len() <= w);
    }
}

#[test]
fn a_higher_size_threshold_keeps_a_part_of_the_rows() {
    let thresholds = [0u64, 8, 9, 100, 1024, 15379, 15380, u64::MAX];
    for low in thresholds {
        for high in thresholds {
            if low <= high {
                let kept_low = filter_min_size(sample(), low);
                let kept_high = filter_min_size(sample(), high);
                let again = filter_min_size(filter_min_size(sample(), low), high);
                assert_eq!(paths(&kept_high), paths(&again));
                for r in &kept_high {
                    assert!(kept_low.iter().any(|x| x.path == r.path));
                }
            }
        }
    }
}

#[test]
fn repository_search_steps() {
    assert_eq!(visit_dir(false, false), DirVisit::Skip);
    assert_eq!(visit_dir(false, true), DirVisit::Skip);
    assert_eq!(visit_dir(true, true), DirVisit::ReportAndSearch);
    assert_eq!(visit_dir(true, false), DirVisit::SearchEntries);
}

#[test]
fn a_repository_is_reported_and_still_searched() {
    let v = visit_dir(true, true);
    assert_eq!(v, DirVisit::ReportAndSearch);
    assert_ne!(v, DirVisit::Skip);
}

/// A walk over a modelled tree of paths (path, is a directory, holds `.git`, entries),
/// deciding each step as the search for repositories does.
fn walk(path: &str, tree: &[(&str, bool, bool, &[&str])], found: &mut Vec<String>) {
    let (_, is_dir, holds_git, entries) = *tree.iter().find(|t| t.0 == path).unwrap();
    let v = visit_dir(is_dir, holds_git);
    if v == DirVisit::ReportAndSearch {
        found.push(path.to_string());
    }
    if v != DirVisit::Skip {
        for e in entries {
            walk(e, tree, found);
        }
    }
}

#[test]
fn hidden_and_nested_repositories_are_found() {
    // The tree:
    // root/ (plain), root/.hidden/ (plain), root/.hidden/inner/ (repository),
    // root/outer/ (repository), root/outer/nested/ (repository), root/file (not a directory).
    let tree: [(&str, bool, bool, &[&str]); 6] = [
        ("root", true, false, &["root/.hidden", "root/outer", "root/file"]),
        ("root/.hidden", true, false, &["root/.hidden/inner"]),
        ("root/.hidden/inner", true, true, &[]),
        ("root/outer", true, true, &["root/outer/nested"]),
        ("root/outer/nested", true, true, &[]),
        ("root/file", false, false, &[]),
    ];
    let mut found = Vec::new();
    walk("root", &tree, &mut found);
    assert_eq!(found, vec!["root/.hidden/inner", "root/outer", "root/outer/nested"]);
}
