//! Character-level text handling: white space, trimming, and splitting text into words,
//! pieces and lines, each with the meaning that Rust's `str` methods of the same name have.
use vstd::prelude::*;

verus! {

broadcast use vstd::string::group_string_axioms;

/// Whether `c` is white space: Unicode's `White_Space` set, which `char::is_whitespace`
/// tests and which `str::trim` and `str::split_whitespace` strip and split on.
pub open spec fn is_space(c: char) -> bool {
    ||| c == ' '
    ||| ('\t' <= c && c <= '\r')
    ||| c == '\u{85}'
    ||| c == '\u{a0}'
    ||| c == '\u{1680}'
    ||| ('\u{2000}' <= c && c <= '\u{200a}')
    ||| c == '\u{2028}'
    ||| c == '\u{2029}'
    ||| c == '\u{202f}'
    ||| c == '\u{205f}'
    ||| c == '\u{3000}'
}

/// Tests `is_space`.
pub fn is_space_char(c: char) -> (r: bool)
    ensures
        r == is_space(c),
{
    c == ' ' || ('\t' <= c && c <= '\r') || c == '\u{85}' || c == '\u{a0}' || c == '\u{1680}'
        || ('\u{2000}' <= c && c <= '\u{200a}') || c == '\u{2028}' || c == '\u{2029}' || c
        == '\u{202f}' || c == '\u{205f}' || c == '\u{3000}'
}

/// The character sequences that a vector of strings holds.
pub open spec fn views(v: Seq<String>) -> Seq<Seq<char>> {
    v.map_values(|s: String| s@)
}

/// `s` without its leading white space.
pub open spec fn trim_start(s: Seq<char>) -> Seq<char>
    decreases s.len(),
{
    if s.len() > 0 && is_space(s[0]) {
        trim_start(s.drop_first())
    } else {
        s
    }
}

/// `s` without its trailing white space.
pub open spec fn trim_end(s: Seq<char>) -> Seq<char>
    decreases s.len(),
{
    if s.len() > 0 && is_space(s.last()) {
        trim_end(s.drop_last())
    } else {
        s
    }
}

/// `s` without leading and trailing white space, as `str::trim` gives it.
pub open spec fn trim(s: Seq<char>) -> Seq<char> {
    trim_end(trim_start(s))
}

/// The words of `s`: its maximal runs of characters that are not white space, in order,
/// as `str::split_whitespace` yields them. Defined by how each further character extends
/// the words of the text before it.
pub open spec fn words(s: Seq<char>) -> Seq<Seq<char>>
    decreases s.len(),
{
    if s.len() == 0 {
        Seq::empty()
    } else {
        let w = words(s.drop_last());
        let c = s.last();
        if is_space(c) {
            w
        } else if s.len() > 1 && !is_space(s[s.len() - 2]) {
            w.update(w.len() - 1, w.last().push(c))
        } else {
            w.push(seq![c])
        }
    }
}

/// The pieces of `s` between occurrences of `sep`, as `str::split` with a character
/// yields them: one more piece than `s` has separators, empty pieces included.
pub open spec fn pieces(s: Seq<char>, sep: char) -> Seq<Seq<char>>
    decreases s.len(),
{
    if s.len() == 0 {
        seq![Seq::empty()]
    } else {
        let p = pieces(s.drop_last(), sep);
        if s.last() == sep {
            p.push(Seq::empty())
        } else {
            p.update(p.len() - 1, p.last().push(s.last()))
        }
    }
}

/// `t` without one trailing carriage return, if it ends in one.
pub open spec fn strip_cr(t: Seq<char>) -> Seq<char> {
    if t.len() > 0 && t.last() == '\r' {
        t.drop_last()
    } else {
        t
    }
}

/// The lines of `s`, as `str::lines` yields them: pieces between line feeds, each that a line
/// feed ends losing one trailing carriage return, with no empty line after a final line feed.
pub open spec fn lines(s: Seq<char>) -> Seq<Seq<char>> {
    let p = pieces(s, '\n');
    if s.len() == 0 || s.last() == '\n' {
        p.drop_last().map_values(|t: Seq<char>| strip_cr(t))
    } else {
        p.drop_last().map_values(|t: Seq<char>| strip_cr(t)).push(p.last())
    }
}

/// The characters of `s`, collected into a vector.
pub fn chars_of(s: &str) -> (v: Vec<char>)
    ensures
        v@ == s@,
{
    let mut v: Vec<char> = Vec::new();
    for c in it: s.chars()
        invariant
            it.seq() == s@,
            v@ == it.seq().take(it.index() as int),
    {
        v.push(c);
    }
    v
}

/// Appends `c` to `s` (`String::push`).
#[verifier::external_body]
pub(crate) fn push_char(s: &mut String, c: char)
    ensures
        final(s)@ == old(s)@.push(c),
{
    s.push(c);
}

/// The string made of `chars[from..to]`.
pub fn string_from(chars: &Vec<char>, from: usize, to: usize) -> (s: String)
    requires
        from <= to <= chars.len(),
    ensures
        s@ == chars@.subrange(from as int, to as int),
{
    let mut s = String::new();
    let mut i = from;
    while i < to
        invariant
            from <= i <= to,
            to <= chars.len(),
            s@ == chars@.subrange(from as int, i as int),
        decreases to - i,
    {
        push_char(&mut s, chars[i]);
        assert(chars@.subrange(from as int, i + 1) == chars@.subrange(from as int, i as int).push(
            chars@[i as int],
        ));
        i += 1;
    }
    s
}

/// The words of `chars[from..to]` (`str::split_whitespace`).
pub fn words_in(chars: &Vec<char>, from: usize, to: usize) -> (out: Vec<String>)
    requires
        from <= to <= chars.len(),
    ensures
        views(out@) == words(chars@.subrange(from as int, to as int)),
{
    let mut out: Vec<String> = Vec::new();
    let mut cur = String::new();
    let mut in_word = false;
    let mut i = from;
    while i < to
        invariant
            from <= i <= to,
            to <= chars.len(),
            in_word == (i > from && !is_space(chars@[i - 1])),
            in_word ==> views(out@).push(cur@) == words(chars@.subrange(from as int, i as int)),
            !in_word ==> views(out@) == words(chars@.subrange(from as int, i as int)),
            !in_word ==> cur@ == Seq::<char>::empty(),
        decreases to - i,
    {
        let c = chars[i];
        let ghost t = chars@.subrange(from as int, i + 1);
        assert(t.drop_last() == chars@.subrange(from as int, i as int));
        assert(t.last() == c);
        assert(i > from ==> t[t.len() - 2] == chars@[i - 1]);
        let ghost prev_out = views(out@);
        let ghost prev_cur = cur@;
        if is_space_char(c) {
            if in_word {
                out.push(cur);
                cur = String::new();
                assert(views(out@) == prev_out.push(prev_cur));
            }
            in_word = false;
        } else {
            push_char(&mut cur, c);
            if in_word {
                assert(prev_out.push(prev_cur).update(prev_out.len() as int, prev_cur.push(c))
                    == prev_out.push(cur@));
            } else {
                assert(cur@ == seq![c]);
            }
            in_word = true;
        }
        i += 1;
    }
    if in_word {
        let ghost prev_out = views(out@);
        out.push(cur);
        assert(views(out@) == prev_out.push(cur@));
    }
    out
}

/// The pieces of `chars[from..to]` between occurrences of `sep` (`str::split`).
pub fn pieces_in(chars: &Vec<char>, from: usize, to: usize, sep: char) -> (out: Vec<String>)
    requires
        from <= to <= chars.len(),
    ensures
        views(out@) == pieces(chars@.subrange(from as int, to as int), sep),
{
    let mut out: Vec<String> = Vec::new();
    let mut start = from;
    let mut i = from;
    assert(chars@.subrange(from as int, from as int) == Seq::<char>::empty());
    while i < to
        invariant
            from <= start <= i <= to,
            to <= chars.len(),
            views(out@).push(chars@.subrange(start as int, i as int)) == pieces(
                chars@.subrange(from as int, i as int),
                sep,
            ),
        decreases to - i,
    {
        let c = chars[i];
        let ghost t = chars@.subrange(from as int, i + 1);
        assert(t.drop_last() == chars@.subrange(from as int, i as int));
        assert(t.last() == c);
        let ghost prev_out = views(out@);
        let ghost prev_cur = chars@.subrange(start as int, i as int);
        if c == sep {
            let piece = string_from(chars, start, i);
            out.push(piece);
            start = i + 1;
            assert(views(out@) == prev_out.push(prev_cur));
            assert(chars@.subrange(start as int, i + 1) == Seq::<char>::empty());
        } else {
            assert(chars@.subrange(start as int, i + 1) == prev_cur.push(c));
            assert(prev_out.push(prev_cur).update(prev_out.len() as int, prev_cur.push(c))
                == prev_out.push(prev_cur.push(c)));
        }
        i += 1;
    }
    let ghost prev_out = views(out@);
    let last = string_from(chars, start, to);
    out.push(last);
    assert(views(out@) == prev_out.push(last@));
    out
}

/// The bounds of `trim(chars[from..to])` within `chars`.
pub fn trim_bounds(chars: &Vec<char>, from: usize, to: usize) -> (r: (usize, usize))
    requires
        from <= to <= chars.len(),
    ensures
        from <= r.0 <= r.1 <= to,
        chars@.subrange(r.0 as int, r.1 as int) == trim(chars@.subrange(from as int, to as int)),
{
    let mut a = from;
    while a < to && is_space_char(chars[a])
        invariant
            from <= a <= to,
            to <= chars.len(),
            trim_start(chars@.subrange(a as int, to as int)) == trim_start(
                chars@.subrange(from as int, to as int),
            ),
        decreases to - a,
    {
        assert(chars@.subrange(a as int, to as int).drop_first() == chars@.subrange(
            a + 1,
            to as int,
        ));
        a += 1;
    }
    assert(trim_start(chars@.subrange(a as int, to as int)) == chars@.subrange(a as int, to as int));
    let mut b = to;
    while b > a && is_space_char(chars[b - 1])
        invariant
            a <= b <= to,
            to <= chars.len(),
            trim_end(chars@.subrange(a as int, b as int)) == trim_end(
                chars@.subrange(a as int, to as int),
            ),
        decreases b,
    {
        assert(chars@.subrange(a as int, b as int).drop_last() == chars@.subrange(
            a as int,
            b - 1,
        ));
        b -= 1;
    }
    (a, b)
}

/// The lines of `chars[from..to]` (`str::lines`).
pub fn lines_in(chars: &Vec<char>, from: usize, to: usize) -> (out: Vec<String>)
    requires
        from <= to <= chars.len(),
    ensures
        views(out@) == lines(chars@.subrange(from as int, to as int)),
{
    let mut out: Vec<String> = Vec::new();
    let mut start = from;
    let mut i = from;
    assert(chars@.subrange(from as int, from as int) == Seq::<char>::empty());
    while i < to
        invariant
            from <= start <= i <= to,
            to <= chars.len(),
            views(out@) == pieces(chars@.subrange(from as int, i as int), '\n').drop_last().map_values(
                |t: Seq<char>| strip_cr(t),
            ),
            chars@.subrange(start as int, i as int) == pieces(
                chars@.subrange(from as int, i as int),
                '\n',
            ).last(),
            pieces(chars@.subrange(from as int, i as int), '\n').len() > 0,
        decreases to - i,
    {
        let c = chars[i];
        let ghost t = chars@.subrange(from as int, i + 1);
        let ghost p = pieces(chars@.subrange(from as int, i as int), '\n');
        assert(t.drop_last() == chars@.subrange(from as int, i as int));
        assert(t.last() == c);
        let ghost prev_out = views(out@);
        let ghost prev_cur = chars@.subrange(start as int, i as int);
        if c == '\n' {
            let end = if i > start && chars[i - 1] == '\r' {
                i - 1
            } else {
                i
            };
            assert(chars@.subrange(start as int, end as int) == strip_cr(prev_cur));
            let line = string_from(chars, start, end);
            out.push(line);
            start = i + 1;
            assert(views(out@) == prev_out.push(strip_cr(prev_cur)));
            assert(p.push(Seq::<char>::empty()).drop_last() == p);
            assert(p.map_values(|t: Seq<char>| strip_cr(t)) == p.drop_last().map_values(
                |t: Seq<char>| strip_cr(t),
            ).push(strip_cr(p.last())));
            assert(chars@.subrange(start as int, i + 1) == Seq::<char>::empty());
        } else {
            assert(chars@.subrange(start as int, i + 1) == prev_cur.push(c));
            let ghost p2 = p.update(p.len() - 1, p.last().push(c));
            assert(p2.drop_last() == p.drop_last());
        }
        i += 1;
    }
    let ghost p = pieces(chars@.subrange(from as int, to as int), '\n');
    if start < to {
        let ghost prev_out = views(out@);
        let last = string_from(chars, start, to);
        out.push(last);
        assert(views(out@) == prev_out.push(last@));
        assert(chars@.subrange(from as int, to as int).last() == chars@[to - 1]);
        assert(chars@.subrange(start as int, to as int).last() == chars@[to - 1]);
    } else {
        if from < to {
            assert(chars@.subrange(from as int, to as int).last() == chars@[to - 1]);
            // The last piece is empty, so the text ends in a line feed.
            assert(chars@[to - 1] == '\n') by {
                lemma_empty_last_piece(chars@.subrange(from as int, to as int), '\n');
            }
        }
    }
    out
}

/// When text is not empty and its last piece is empty, the text ends in the separator.
proof fn lemma_empty_last_piece(s: Seq<char>, sep: char)
    requires
        s.len() > 0,
        pieces(s, sep).last().len() == 0,
    ensures
        s.last() == sep,
{
    if s.last() != sep {
        let p = pieces(s.drop_last(), sep);
        lemma_pieces_nonempty(s.drop_last(), sep);
        assert(pieces(s, sep).last() == p.last().push(s.last()));
    }
}

/// Text has at least one piece.
proof fn lemma_pieces_nonempty(s: Seq<char>, sep: char)
    ensures
        pieces(s, sep).len() > 0,
    decreases s.len(),
{
    if s.len() > 0 {
        lemma_pieces_nonempty(s.drop_last(), sep);
    }
}

/// What `String::from_utf8_lossy` makes of the bytes `bytes`: their UTF-8 decoding, with
/// each ill-formed sequence replaced by `U+FFFD`.
pub uninterp spec fn utf8_lossy(bytes: Seq<u8>) -> Seq<char>;

/// Decodes `bytes` as UTF-8, replacing ill-formed sequences (`String::from_utf8_lossy`).
/// Its contract claims that the result is `utf8_lossy` of the bytes, and, as the function's
/// documentation promises, that well-formed UTF-8 comes back unchanged.
#[verifier::external_body]
pub(crate) fn decode_lossy(bytes: &[u8]) -> (s: String)
    ensures
        s@ == utf8_lossy(bytes@),
        vstd::utf8::valid_utf8(bytes@) ==> s@ == vstd::utf8::decode_utf8(bytes@),
{
    String::from_utf8_lossy(bytes).into_owned()
}

/// The lines of `text` (`str::lines`).
pub fn split_lines(text: &str) -> (out: Vec<String>)
    ensures
        views(out@) == lines(text@),
{
    let chars = chars_of(text);
    assert(chars@.subrange(0, chars@.len() as int) == chars@);
    lines_in(&chars, 0, chars.len())
}

/// The words of `text` (`str::split_whitespace`).
pub fn split_words(text: &str) -> (out: Vec<String>)
    ensures
        views(out@) == words(text@),
{
    let chars = chars_of(text);
    assert(chars@.subrange(0, chars@.len() as int) == chars@);
    words_in(&chars, 0, chars.len())
}

/// The pieces of `text` between occurrences of `sep` (`str::split`).
pub fn split_pieces(text: &str, sep: char) -> (out: Vec<String>)
    ensures
        views(out@) == pieces(text@, sep),
{
    let chars = chars_of(text);
    assert(chars@.subrange(0, chars@.len() as int) == chars@);
    pieces_in(&chars, 0, chars.len(), sep)
}

/// Where `c` first occurs in `s`, if it does.
pub open spec fn index_of(s: Seq<char>, c: char) -> Option<nat>
    decreases s.len(),
{
    if s.len() == 0 {
        None
    } else if s[0] == c {
        Some(0)
    } else {
        match index_of(s.drop_first(), c) {
            Some(k) => Some(k + 1),
            None => None,
        }
    }
}

proof fn lemma_index_of(s: Seq<char>, c: char, k: int)
    requires
        0 <= k <= s.len(),
        forall|j: int| 0 <= j < k ==> s[j] != c,
    ensures
        k < s.len() && s[k] == c ==> index_of(s, c) == Some(k as nat),
        k == s.len() ==> index_of(s, c) is None,
    decreases k,
{
    if k > 0 {
        lemma_index_of(s.drop_first(), c, k - 1);
    }
}

/// The text of `s` before and after the first `sep`, if `s` holds one (`str::split_once`).
pub open spec fn split_once(s: Seq<char>, sep: char) -> Option<(Seq<char>, Seq<char>)> {
    match index_of(s, sep) {
        Some(k) => Some((s.take(k as int), s.skip(k as int + 1))),
        None => None,
    }
}

/// Splits `text` at the first `sep` (`str::split_once`).
pub fn split_once_at(text: &str, sep: char) -> (r: Option<(String, String)>)
    ensures
        match r {
            Some((a, b)) => split_once(text@, sep) == Some((a@, b@)),
            None => split_once(text@, sep) is None,
        },
{
    let chars = chars_of(text);
    let n = chars.len();
    let mut i: usize = 0;
    while i < n && chars[i] != sep
        invariant
            i <= n,
            n == chars.len(),
            forall|j: int| 0 <= j < i ==> chars@[j] != sep,
        decreases n - i,
    {
        i += 1;
    }
    proof {
        lemma_index_of(chars@, sep, i as int);
    }
    if i == n {
        None
    } else {
        let before = string_from(&chars, 0, i);
        let after = string_from(&chars, i + 1, n);
        assert(chars@.take(i as int) == chars@.subrange(0, i as int));
        assert(chars@.skip(i + 1) == chars@.subrange(i + 1, n as int));
        Some((before, after))
    }
}

/// Appends `s` to `k`.
pub(crate) fn push_str(k: &mut String, s: &str)
    ensures
        final(k)@ == old(k)@ + s@,
{
    let chars = chars_of(s);
    let mut i: usize = 0;
    while i < chars.len()
        invariant
            i <= chars.len(),
            chars@ == s@,
            k@ == old(k)@ + s@.take(i as int),
        decreases chars.len() - i,
    {
        push_char(k, chars[i]);
        assert(s@.take(i + 1) == s@.take(i as int).push(chars@[i as int]));
        i += 1;
    }
    assert(s@.take(chars.len() as int) == s@);
}

} // verus!
