//! Reading what Git prints: object sizes (`git cat-file --batch-check`), the files of a tree
//! (`git ls-tree -r -z`), the blobs that commits introduce (`git diff-tree -r --raw`) and
//! lists of commits (`git rev-list`).
use vstd::prelude::*;
use crate::number::{parse_u64, parse_u64_spec};
use crate::text::{
    chars_of, decode_lossy, pieces, pieces_in, split_lines, split_once, split_once_at, split_words,
    utf8_lossy, views, words, lines,
};

verus! {

/// `r`'s number, or zero where there is none (`unwrap_or(0)`).
pub open spec fn or_zero(r: Option<u64>) -> u64 {
    match r {
        Some(n) => n,
        None => 0,
    }
}

/// What a line `<name> <size> <size on disk>` of `git cat-file --batch-check` says: the
/// object's name and its two sizes. A line with fewer than three words says nothing; a size
/// that does not read as a number counts as zero.
pub open spec fn object_line(line: Seq<char>) -> Option<(Seq<char>, u64, u64)> {
    let w = words(line);
    if w.len() >= 3 {
        Some((w[0], or_zero(parse_u64_spec(w[1])), or_zero(parse_u64_spec(w[2]))))
    } else {
        None
    }
}

/// The name of an object and its sizes: as stored uncompressed, and on disk.
#[derive(Debug)]
pub struct ObjectSizes {
    pub oid: String,
    pub uncompressed: u64,
    pub compressed: u64,
}

/// Reads one line of object sizes (see `object_line`).
pub fn parse_object_line(line: &str) -> (r: Option<ObjectSizes>)
    ensures
        match r {
            Some(o) => object_line(line@) == Some((o.oid@, o.uncompressed, o.compressed)),
            None => object_line(line@) is None,
        },
{
    let w = split_words(line);
    if w.len() < 3 {
        return None;
    }
    assert(w[0]@ == words(line@)[0] && w[1]@ == words(line@)[1] && w[2]@ == words(line@)[2]);
    let uncompressed = match parse_u64(w[1].as_str()) {
        Some(n) => n,
        None => 0,
    };
    let compressed = match parse_u64(w[2].as_str()) {
        Some(n) => n,
        None => 0,
    };
    Some(ObjectSizes { oid: w[0].clone(), uncompressed, compressed })
}

/// What one entry `<mode> <type> <name>\t<path>` of `git ls-tree -r -z` says: the path of
/// a file and the name of its blob. The path is the text between the first tab and the
/// next one; an entry with fewer than three words, or with an empty path, says nothing.
pub open spec fn tree_entry(entry: Seq<char>) -> Option<(Seq<char>, Seq<char>)> {
    let w = words(entry);
    let p = pieces(entry, '\t');
    let path = if p.len() > 1 {
        p[1]
    } else {
        Seq::empty()
    };
    if w.len() >= 3 && path.len() > 0 {
        Some((path, w[2]))
    } else {
        None
    }
}

/// What the non-empty entries among `ps` say, in order.
pub open spec fn tree_entries_of(ps: Seq<Seq<char>>) -> Seq<(Seq<char>, Seq<char>)>
    decreases ps.len(),
{
    if ps.len() == 0 {
        Seq::empty()
    } else {
        let rest = tree_entries_of(ps.drop_last());
        let e = ps.last();
        if e.len() > 0 && tree_entry(e) is Some {
            rest.push(tree_entry(e)->0)
        } else {
            rest
        }
    }
}

/// What a whole listing of `git ls-tree -r -z` says: its entries are separated by NUL.
pub open spec fn tree_listing(text: Seq<char>) -> Seq<(Seq<char>, Seq<char>)> {
    tree_entries_of(pieces(text, '\0'))
}

/// A file of a tree: its path and the name of its blob.
#[derive(Debug)]
pub struct TreeEntry {
    pub path: String,
    pub oid: String,
}

impl TreeEntry {
    pub open spec fn pair(self) -> (Seq<char>, Seq<char>) {
        (self.path@, self.oid@)
    }
}

/// The path and blob name that each entry of `v` holds.
pub open spec fn entry_pairs(v: Seq<TreeEntry>) -> Seq<(Seq<char>, Seq<char>)> {
    v.map_values(|e: TreeEntry| e.pair())
}

/// Reads one entry of a tree listing (see `tree_entry`).
pub fn parse_tree_entry(entry: &str) -> (r: Option<TreeEntry>)
    ensures
        match r {
            Some(e) => tree_entry(entry@) == Some(e.pair()),
            None => tree_entry(entry@) is None,
        },
{
    let w = split_words(entry);
    if w.len() < 3 {
        return None;
    }
    let p = crate::text::split_pieces(entry, '\t');
    if p.len() < 2 {
        return None;
    }
    assert(p[1]@ == pieces(entry@, '\t')[1]);
    assert(w[2]@ == words(entry@)[2]);
    if p[1].as_str().is_empty() {
        return None;
    }
    Some(TreeEntry { path: p[1].clone(), oid: w[2].clone() })
}

/// Reads a listing of `git ls-tree -r -z` (see `tree_listing`).
pub fn tree_entries(text: &str) -> (out: Vec<TreeEntry>)
    ensures
        entry_pairs(out@) == tree_listing(text@),
{
    let chars = chars_of(text);
    assert(chars@.subrange(0, chars@.len() as int) == chars@);
    let ps = pieces_in(&chars, 0, chars.len(), '\0');
    let ghost pv = views(ps@);
    let mut out: Vec<TreeEntry> = Vec::new();
    let mut i: usize = 0;
    while i < ps.len()
        invariant
            i <= ps.len(),
            pv == views(ps@),
            pv == pieces(text@, '\0'),
            entry_pairs(out@) == tree_entries_of(pv.take(i as int)),
        decreases ps.len() - i,
    {
        assert(pv.take(i + 1).drop_last() == pv.take(i as int));
        assert(pv.take(i + 1).last() == ps[i as int]@);
        let ghost prev = entry_pairs(out@);
        if !ps[i].as_str().is_empty() {
            match parse_tree_entry(ps[i].as_str()) {
                Some(e) => {
                    out.push(e);
                    assert(entry_pairs(out@) == prev.push(e.pair()));
                },
                None => {},
            }
        }
        i += 1;
    }
    assert(pv.take(ps.len() as int) == pv);
    out
}

/// Reads the raw output of `git ls-tree -r -z`, decoded as `String::from_utf8_lossy` does.
pub fn tree_entries_from_output(raw: &[u8]) -> (out: Vec<TreeEntry>)
    ensures
        entry_pairs(out@) == tree_listing(utf8_lossy(raw@)),
{
    let text = decode_lossy(raw);
    tree_entries(text.as_str())
}

/// Whether every character of `s` is `0`: the name Git gives to "no blob".
pub open spec fn all_zero(s: Seq<char>) -> bool {
    forall|i: int| 0 <= i < s.len() ==> #[trigger] s[i] == '0'
}

/// What a line `:<mode> <mode> <old> <new> <status>\t<path>` of `git diff-tree -r --raw`
/// says: that the blob `<new>` is a version of the file at `<path>`. A line without a tab,
/// with fewer than five words before it, or whose new blob is all zeros (a deletion), says
/// nothing.
pub open spec fn diff_line(line: Seq<char>) -> Option<(Seq<char>, Seq<char>)> {
    match split_once(line, '\t') {
        Some((meta, path)) => {
            let w = words(meta);
            if w.len() >= 5 && !all_zero(w[3]) {
                Some((path, w[3]))
            } else {
                None
            }
        },
        None => None,
    }
}

/// A diff line with a tab and at least five words before it records its fourth word as a
/// blob of the path after the tab exactly when that word holds a character other than `0`;
/// a fourth word made of `0` alone (a deleted file) records nothing.
pub proof fn law_diff_line_skips_only_zero_blobs(line: Seq<char>)
    requires
        split_once(line, '\t') is Some,
        words(split_once(line, '\t').unwrap().0).len() >= 5,
    ensures
        ({
            let (meta, path) = split_once(line, '\t').unwrap();
            let oid = words(meta)[3];
            &&& (exists|i: int| 0 <= i < oid.len() && #[trigger] oid[i] != '0') ==> diff_line(line) == Some((path, oid))
            &&& (forall|i: int| 0 <= i < oid.len() ==> #[trigger] oid[i] == '0') ==> diff_line(line) is None
        }),
{
}

/// A version of a file: its path and the name of the blob.
#[derive(Debug)]
pub struct BlobVersion {
    pub path: String,
    pub oid: String,
}

/// Whether every character of `s` is `0`.
fn is_all_zero(s: &str) -> (r: bool)
    ensures
        r == all_zero(s@),
{
    let chars = chars_of(s);
    let mut i: usize = 0;
    while i < chars.len()
        invariant
            i <= chars.len(),
            chars@ == s@,
            forall|j: int| 0 <= j < i ==> chars@[j] == '0',
        decreases chars.len() - i,
    {
        if chars[i] != '0' {
            return false;
        }
        i += 1;
    }
    true
}

/// Reads one line of `git diff-tree -r --raw` (see `diff_line`).
pub fn parse_diff_line(line: &str) -> (r: Option<BlobVersion>)
    ensures
        match r {
            Some(b) => diff_line(line@) == Some((b.path@, b.oid@)),
            None => diff_line(line@) is None,
        },
{
    match split_once_at(line, '\t') {
        Some((meta, path)) => {
            let w = split_words(meta.as_str());
            if w.len() < 5 {
                return None;
            }
            assert(w[3]@ == words(meta@)[3]);
            if is_all_zero(w[3].as_str()) {
                return None;
            }
            Some(BlobVersion { path, oid: w[3].clone() })
        },
        None => None,
    }
}

/// Reads the raw output of `git rev-list`, decoded as `String::from_utf8_lossy` does: one
/// commit per line.
pub fn commit_list(raw: &[u8]) -> (out: Vec<String>)
    ensures
        views(out@) == lines(utf8_lossy(raw@)),
{
    let text = decode_lossy(raw);
    split_lines(text.as_str())
}

} // verus!
