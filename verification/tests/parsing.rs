use git_compression_stats::git::{
    commit_list, parse_diff_line, parse_object_line, parse_tree_entry, tree_entries,
    tree_entries_from_output,
};
use git_compression_stats::number::{decimal_string, min_size_threshold, parse_size, parse_u64, split_size};
use git_compression_stats::text::{split_lines, split_once_at, split_pieces, split_words};

#[test]
fn parse_size_plain_and_suffixes() {
    assert_eq!(parse_size("1024"), Some(1024));
    assert_eq!(parse_size("1K"), Some(1024));
    assert_eq!(parse_size("1M"), Some(1024 * 1024));
    assert_eq!(parse_size("1G"), Some(1024 * 1024 * 1024));
    assert_eq!(parse_size("5k"), Some(5 * 1024));
    assert_eq!(parse_size("2m"), Some(2 * 1024 * 1024));
    assert_eq!(parse_size("3g"), Some(3 * 1024 * 1024 * 1024));
}

#[test]
fn parse_size_trims_white_space() {
    assert_eq!(parse_size("  1K  "), Some(1024));
    assert_eq!(parse_size(" 7 K"), Some(7 * 1024));
    assert_eq!(parse_size("\t42\n"), Some(42));
    assert_eq!(parse_size("\u{3000}8\u{a0}"), Some(8));
}

#[test]
fn parse_size_refuses_what_is_not_a_size() {
    assert_eq!(parse_size(""), None);
    assert_eq!(parse_size("K"), None);
    assert_eq!(parse_size("abc"), None);
    assert_eq!(parse_size("1.5K"), None);
    assert_eq!(parse_size("-5"), None);
    assert_eq!(parse_size("1T"), None);
    assert_eq!(parse_size("1KB"), None);
    assert_eq!(parse_size("+"), None);
}

#[test]
fn parse_size_accepts_a_plus_sign() {
    assert_eq!(parse_size("+5"), Some(5));
    assert_eq!(parse_size("+2K"), Some(2048));
}

#[test]
fn split_size_reports_count_and_multiplier() {
    assert_eq!(split_size("3M"), Some((3, 1048576)));
    assert_eq!(split_size("12"), Some((12, 1)));
    assert_eq!(split_size("99999999999999999999"), None);
    // The count fits, the product does not: the caller sees both parts.
    assert_eq!(split_size("18446744073709551615K"), Some((18446744073709551615, 1024)));
}

#[test]
fn parse_u64_matches_std() {
    for s in ["0", "007", "+12", "18446744073709551615", "18446744073709551616", "", "+", "-1", "1 2", "x"] {
        assert_eq!(parse_u64(s), s.parse::<u64>().ok(), "{s:?}");
    }
}

#[test]
fn decimal_string_matches_display() {
    for n in [0u64, 7, 10, 99, 100, 12345, u64::MAX] {
        assert_eq!(decimal_string(n), format!("{n}"));
    }
}

#[test]
fn decimal_roundtrip_through_parse_size() {
    for n in [0u64, 1, 1023, 1024, 987654321, u64::MAX] {
        assert_eq!(parse_size(&decimal_string(n)), Some(n));
    }
}

#[test]
fn words_pieces_and_lines_match_std() {
    let samples = ["", " a  b\tc ", "x\u{2003}y", "a\tb\tc", "\t", "l1\r\nl2\n", "l1\nl2", "a\r", "\n\n", "one\r\r\n"];
    for s in samples {
        let w: Vec<String> = s.split_whitespace().map(String::from).collect();
        assert_eq!(split_words(s), w, "{s:?}");
        let p: Vec<String> = s.split('\t').map(String::from).collect();
        assert_eq!(split_pieces(s, '\t'), p, "{s:?}");
        let l: Vec<String> = s.lines().map(String::from).collect();
        assert_eq!(split_lines(s), l, "{s:?}");
        let o = s.split_once('\t').map(|(a, b)| (a.to_string(), b.to_string()));
        assert_eq!(split_once_at(s, '\t'), o, "{s:?}");
    }
}

#[test]
fn object_line_reads_name_and_sizes() {
    let o = parse_object_line("4b825dc642cb6eb9a060e54bf8d69288fbee4904 120 95").unwrap();
    assert_eq!(o.oid, "4b825dc642cb6eb9a060e54bf8d69288fbee4904");
    assert_eq!(o.uncompressed, 120);
    assert_eq!(o.compressed, 95);
}

#[test]
fn object_line_counts_bad_sizes_as_zero() {
    let o = parse_object_line("abc x 17 extra").unwrap();
    assert_eq!((o.oid.as_str(), o.uncompressed, o.compressed), ("abc", 0, 17));
    assert!(parse_object_line("abc missing").is_none());
    assert!(parse_object_line("").is_none());
}

#[test]
fn tree_entry_reads_path_and_blob() {
    let e = parse_tree_entry("100644 blob 1234abcd\tsrc/main.rs").unwrap();
    assert_eq!(e.path, "src/main.rs");
    assert_eq!(e.oid, "1234abcd");
    // The path ends at a second tab.
    let e = parse_tree_entry("100644 blob 1234abcd\tweird\tname").unwrap();
    assert_eq!(e.path, "weird");
    assert!(parse_tree_entry("100644 blob 1234abcd").is_none());
    assert!(parse_tree_entry("blob\tpath").is_none());
    // The tab separates words too, so the path counts as the third word here.
    let e = parse_tree_entry("100644 blob\tpath").unwrap();
    assert_eq!((e.path.as_str(), e.oid.as_str()), ("path", "path"));
    assert!(parse_tree_entry("100644 blob 1234\t").is_none());
}

#[test]
fn tree_listing_skips_empty_entries() {
    let text = "100644 blob aa\tREADME.md\0100755 blob bb\tbin/run.sh\0\0";
    let entries = tree_entries(text);
    let pairs: Vec<(&str, &str)> = entries.iter().map(|e| (e.path.as_str(), e.oid.as_str())).collect();
    assert_eq!(pairs, vec![("README.md", "aa"), ("bin/run.sh", "bb")]);
}

#[test]
fn tree_output_is_decoded_lossily() {
    let mut raw = b"100644 blob aa\tna".to_vec();
    raw.push(0xff);
    raw.extend_from_slice(b"me\0");
    let entries = tree_entries_from_output(&raw);
    assert_eq!(entries.len(), 1);
    assert_eq!(entries[0].path, "na\u{fffd}me");
}

#[test]
fn diff_line_reads_new_blob() {
    let b = parse_diff_line(":100644 100644 1111111 2222222 M\tsrc/lib.rs").unwrap();
    assert_eq!(b.path, "src/lib.rs");
    assert_eq!(b.oid, "2222222");
    let b = parse_diff_line(":000000 100644 0000000 3333333 A\tdir/new file.txt").unwrap();
    assert_eq!(b.path, "dir/new file.txt");
}

#[test]
fn diff_line_ignores_deletions_and_noise() {
    assert!(parse_diff_line(":100644 000000 1111111 0000000000 D\tgone.rs").is_none());
    assert!(parse_diff_line("commit abcdef").is_none());
    assert!(parse_diff_line(":100644 100644 111 222\tshort").is_none());
}

#[test]
fn commit_list_splits_lines() {
    let shas = commit_list(b"aaa\nbbb\r\nccc\n");
    assert_eq!(shas, vec!["aaa", "bbb", "ccc"]);
    assert!(commit_list(b"").is_empty());
}

#[test]
fn min_size_threshold_defaults_to_zero() {
    assert_eq!(min_size_threshold(None), 0);
    assert_eq!(min_size_threshold(Some("abc")), 0);
    assert_eq!(min_size_threshold(Some("")), 0);
    assert_eq!(min_size_threshold(Some("1K")), 1024);
    assert_eq!(min_size_threshold(Some(" 2m ")), 2 * 1024 * 1024);
    assert_eq!(min_size_threshold(Some("500")), 500);
}
