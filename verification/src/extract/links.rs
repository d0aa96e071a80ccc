//! The link parser: `[[path]]` and `[[path#fragment]]` in text.
//!
//! A pure text scanner that walks each line looking for `[[` and `]]`.
//! Links cannot span lines, empty links are skipped, and `#` splits the
//! path from the fragment. In code files only comments are scanned: line
//! comments (also trailing ones) and block comments.

use vstd::prelude::*;
use vstd::utf8::encode_utf8;
use crate::text::{
    chars_of, find, find_from, find_in, join_lines, joined_lines, lemma_encode_utf8_add, lemma_find_from,
    lemma_lines_join,
    lemma_lines_len, lemma_lines_no_newline, lemma_lines_single, lemma_utf8_len_subrange,
    lemma_trim_props, lemma_trim_window, lemma_utf8_len_take_increases, line_spans, lines,
    matches_at, no_newline, strip_cr, string_of, trim, trim_range, utf8_len,
    utf8_len_range,
};

verus! {

/// A raw parsed link from source text.
#[derive(Debug, Clone, PartialEq, Eq)]
pub struct RawLink {
    /// The path portion of the link (before `#`).
    pub path: String,
    /// The fragment portion (after `#`), if any.
    pub fragment: Option<String>,
    /// Line number where the link was found (1-indexed).
    pub line: u32,
    /// Byte offset of `[[` within its line.
    pub col: usize,
}

/// What a link is, as values.
pub struct LinkView {
    pub path: Seq<char>,
    pub fragment: Option<Seq<char>>,
    pub line: u32,
    pub col: nat,
}

/// The characters of an optional string.
pub open spec fn opt_str(o: Option<String>) -> Option<Seq<char>> {
    match o {
        Some(s) => Some(s@),
        None => None,
    }
}

impl View for RawLink {
    type V = LinkView;

    open spec fn view(&self) -> LinkView {
        LinkView {
            path: self.path@,
            fragment: opt_str(self.fragment),
            line: self.line,
            col: self.col as nat,
        }
    }
}

/// The views of a sequence of links.
pub open spec fn links_view(v: Seq<RawLink>) -> Seq<LinkView> {
    v.map_values(|l: RawLink| l@)
}

/// `]]`
pub open spec fn close_pat() -> Seq<char> {
    seq![']', ']']
}

/// `#`
pub open spec fn hash_pat() -> Seq<char> {
    seq!['#']
}

/// The path and fragment written between `[[` and `]]`, if they make a link:
/// the text is trimmed, split at its first `#`, both parts trimmed again; an
/// empty path is no link and an empty fragment is none.
pub open spec fn link_parts(inner: Seq<char>) -> Option<(Seq<char>, Option<Seq<char>>)> {
    let t = trim(inner);
    if t.len() == 0 {
        None
    } else {
        match find(t, hash_pat()) {
            Some(h) => {
                let p = trim(t.take(h));
                let f = trim(t.skip(h + 1));
                if p.len() == 0 {
                    None
                } else {
                    Some((p, if f.len() == 0 { None } else { Some(f) }))
                }
            },
            None => Some((t, None)),
        }
    }
}

/// The links of one line, scanned from index `i`: at each `[[` the first
/// `]]` after it closes the link, and the scan goes on behind that `]]`;
/// a `[[` without `]]` is passed over. Links are numbered `n`, and `col` is
/// `base` plus the byte offset of `[[` in the line.
pub open spec fn scan_line(line: Seq<char>, n: u32, base: nat, i: int) -> Seq<LinkView>
    decreases line.len() - i,
{
    if i < 0 || i + 1 >= line.len() {
        seq![]
    } else if line[i] == '[' && line[i + 1] == '[' {
        match find(line.skip(i + 2), close_pat()) {
            Some(d) => {
                proof {
                    lemma_find_from(line.skip(i + 2), close_pat(), 0);
                }
                let c = i + 2 + d;
                let here = match link_parts(line.subrange(i + 2, c)) {
                    Some(pf) => seq![
                        LinkView {
                            path: pf.0,
                            fragment: pf.1,
                            line: n,
                            col: base + utf8_len(line.take(i)),
                        },
                    ],
                    None => seq![],
                };
                here + scan_line(line, n, base, c + 2)
            },
            None => scan_line(line, n, base, i + 2),
        }
    } else {
        scan_line(line, n, base, i + 1)
    }
}

/// The links of a list of lines, line `k` numbered `k + 1`.
pub open spec fn links_of_lines(ls: Seq<Seq<char>>) -> Seq<LinkView>
    decreases ls.len(),
{
    if ls.len() == 0 {
        seq![]
    } else {
        links_of_lines(ls.drop_last()) + scan_line(ls.last(), ls.len() as u32, 0, 0)
    }
}

/// The links of a text.
pub open spec fn text_links(text: Seq<char>) -> Seq<LinkView> {
    links_of_lines(lines(text))
}

/// A link numbered `n`, its column moved by `extra` bytes.
pub open spec fn relabel(l: LinkView, n: u32, extra: nat) -> LinkView {
    LinkView { path: l.path, fragment: l.fragment, line: n, col: l.col + extra }
}

/// Links numbered `n`, their columns moved by `extra` bytes.
pub open spec fn relabel_all(v: Seq<LinkView>, n: u32, extra: nat) -> Seq<LinkView> {
    v.map_values(|l: LinkView| relabel(l, n, extra))
}

/// The links of the line comments of a text: on each line, the text after
/// the first occurrence of `prefix` is scanned, and columns count from the
/// start of the line.
pub open spec fn line_comment_links(line: Seq<char>, prefix: Seq<char>, n: u32) -> Seq<
    LinkView,
> {
    match find(line, prefix) {
        Some(cs) => relabel_all(
            text_links(line.skip(cs + prefix.len())),
            n,
            utf8_len(line.take(cs)) + utf8_len(prefix),
        ),
        None => seq![],
    }
}

/// The line-comment links of a list of lines, line `k` numbered `k + 1`.
pub open spec fn comment_links_of_lines(ls: Seq<Seq<char>>, prefix: Seq<char>) -> Seq<LinkView>
    decreases ls.len(),
{
    if ls.len() == 0 {
        seq![]
    } else {
        comment_links_of_lines(ls.drop_last(), prefix) + line_comment_links(
            ls.last(),
            prefix,
            ls.len() as u32,
        )
    }
}

/// Links numbered `first` lines further down; those of the first line have
/// their columns moved by `lead` bytes.
pub open spec fn shift_lines(v: Seq<LinkView>, first: int, lead: nat) -> Seq<LinkView> {
    v.map_values(
        |l: LinkView| relabel(l, (first + l.line) as u32, if l.line == 1 { lead } else { 0 }),
    )
}

/// The links of the block comments of the lines `ls[i..]`. Outside a block,
/// the first `open` on a line starts one; when `close` follows on the same
/// line the block is that piece alone, numbered with the line; otherwise the
/// block gathers the rest of the line and the following lines up to the
/// first `close`, and its links, taken from the pieces joined by `'\n'`, are
/// numbered from the line before the block's first line. Columns count from
/// the start of the line: on the line of `open`, `lead` is the length of
/// the line up to the end of `open`. A block left open at the end yields
/// nothing.
pub open spec fn block_links(
    ls: Seq<Seq<char>>,
    open: Seq<char>,
    close: Seq<char>,
    i: int,
    in_block: bool,
    pieces: Seq<Seq<char>>,
    first: int,
    lead: nat,
) -> Seq<LinkView>
    decreases ls.len() - i,
{
    if i < 0 || i >= ls.len() {
        seq![]
    } else {
        let line = ls[i];
        if in_block {
            match find(line, close) {
                Some(p) => shift_lines(
                    text_links(join_lines(pieces.push(line.take(p)))),
                    first,
                    lead,
                ) + block_links(ls, open, close, i + 1, false, seq![], 0, 0),
                None => block_links(ls, open, close, i + 1, true, pieces.push(line), first, lead),
            }
        } else {
            match find(line, open) {
                Some(p) => {
                    let after = line.skip(p + open.len());
                    let at = utf8_len(line.take(p)) + utf8_len(open);
                    match find(after, close) {
                        Some(q) => relabel_all(text_links(after.take(q)), (i + 1) as u32, at)
                            + block_links(ls, open, close, i + 1, false, seq![], 0, 0),
                        None => block_links(ls, open, close, i + 1, true, seq![after], i, at),
                    }
                },
                None => block_links(ls, open, close, i + 1, false, seq![], 0, 0),
            }
        }
    }
}

// ---------------------------------------------------------------------------
// Lemmas

proof fn lemma_map_add(a: Seq<LinkView>, b: Seq<LinkView>, n: u32, e: nat)
    ensures
        relabel_all(a + b, n, e) == relabel_all(a, n, e) + relabel_all(b, n, e),
{
    assert(relabel_all(a + b, n, e) =~= relabel_all(a, n, e) + relabel_all(b, n, e));
}

/// Renumbering the links of a line is scanning it with the new number and
/// the moved base.
proof fn lemma_scan_relabel(t: Seq<char>, n: u32, base: nat, i: int, n2: u32, e: nat)
    ensures
        relabel_all(scan_line(t, n, base, i), n2, e) == scan_line(t, n2, base + e, i),
    decreases t.len() - i,
{
    if i < 0 || i + 1 >= t.len() {
        assert(relabel_all(scan_line(t, n, base, i), n2, e) =~= seq![]);
    } else if t[i] == '[' && t[i + 1] == '[' {
        match find(t.skip(i + 2), close_pat()) {
            Some(d) => {
                lemma_find_from(t.skip(i + 2), close_pat(), 0);
                let c = i + 2 + d;
                lemma_scan_relabel(t, n, base, c + 2, n2, e);
                let here = match link_parts(t.subrange(i + 2, c)) {
                    Some(pf) => seq![
                        LinkView {
                            path: pf.0,
                            fragment: pf.1,
                            line: n,
                            col: base + utf8_len(t.take(i)),
                        },
                    ],
                    None => seq![],
                };
                lemma_map_add(here, scan_line(t, n, base, c + 2), n2, e);
                assert(relabel_all(here, n2, e) =~= match link_parts(t.subrange(i + 2, c)) {
                    Some(pf) => seq![
                        LinkView {
                            path: pf.0,
                            fragment: pf.1,
                            line: n2,
                            col: base + e + utf8_len(t.take(i)),
                        },
                    ],
                    None => seq![],
                });
            },
            None => {
                lemma_scan_relabel(t, n, base, i + 2, n2, e);
            },
        }
    } else {
        lemma_scan_relabel(t, n, base, i + 1, n2, e);
    }
}

/// The links of a text without `'\n'` are those of its one line.
proof fn lemma_text_links_single(t: Seq<char>)
    requires
        forall|j: int| 0 <= j < t.len() ==> #[trigger] t[j] != '\n',
    ensures
        text_links(t) == scan_line(t, 1, 0, 0),
{
    lemma_lines_single(t);
    if t.len() == 0 {
        assert(text_links(t) =~= seq![]);
    } else {
        let ls = lines(t);
        assert(ls.drop_last() =~= Seq::<Seq<char>>::empty());
        assert(links_of_lines(ls.drop_last()) =~= seq![]);
        assert(text_links(t) =~= scan_line(t, 1, 0, 0));
    }
}

proof fn lemma_links_of_lines_take(ls: Seq<Seq<char>>, k: int)
    requires
        0 <= k < ls.len(),
    ensures
        links_of_lines(ls.take(k + 1)) == links_of_lines(ls.take(k)) + scan_line(
            ls[k],
            (k + 1) as u32,
            0,
            0,
        ),
{
    assert(ls.take(k + 1).drop_last() =~= ls.take(k));
}

// ---------------------------------------------------------------------------
// Scanning

/// Appends the links of `s[lo..hi]`, numbered `n`, with columns counted
/// from `base`.
fn scan_line_into(s: &[char], lo: usize, hi: usize, n: u32, base: usize, out: &mut Vec<RawLink>)
    requires
        lo <= hi <= s@.len(),
        base + utf8_len(s@.subrange(lo as int, hi as int)) <= usize::MAX,
    ensures
        links_view(final(out)@) == links_view(old(out)@) + scan_line(
            s@.subrange(lo as int, hi as int),
            n,
            base as nat,
            0,
        ),
{
    let ghost line = s@.subrange(lo as int, hi as int);
    let ghost start = links_view(out@);
    let close: Vec<char> = vec![']', ']'];
    let hash: Vec<char> = vec!['#'];
    let len = hi - lo;
    let mut i: usize = 0;
    proof {
        assert(close@ == close_pat());
        assert(hash@ == hash_pat());
        assert(start + scan_line(line, n, base as nat, 0) =~= links_view(out@) + scan_line(
            line,
            n,
            base as nat,
            i as int,
        ));
    }
    while len - i >= 2
        invariant
            lo <= hi <= s@.len(),
            len == hi - lo,
            line == s@.subrange(lo as int, hi as int),
            base + utf8_len(line) <= usize::MAX,
            close@ == close_pat(),
            hash@ == hash_pat(),
            i <= len,
            links_view(out@) + scan_line(line, n, base as nat, i as int) == start + scan_line(
                line,
                n,
                base as nat,
                0,
            ),
        decreases len - i,
    {
        if s[lo + i] == '[' && s[lo + i + 1] == '[' {
            let a = lo + i + 2;
            proof {
                assert(line.skip(i + 2) =~= s@.subrange(a as int, hi as int));
            }
            match find_in(s, a, hi, close.as_slice()) {
                Some(k) => {
                    let ghost c = k - lo;
                    proof {
                        lemma_find_from(line.skip(i + 2), close_pat(), 0);
                        assert(line.subrange(i + 2, c as int) =~= s@.subrange(a as int, k as int));
                    }
                    let (t0, t1) = trim_range(s, a, k);
                    let ghost here: Seq<LinkView> = match link_parts(
                        line.subrange(i + 2, c as int),
                    ) {
                        Some(pf) => seq![
                            LinkView {
                                path: pf.0,
                                fragment: pf.1,
                                line: n,
                                col: base as nat + utf8_len(line.take(i as int)),
                            },
                        ],
                        None => seq![],
                    };
                    let ghost before = links_view(out@);
                    if t0 < t1 {
                        let ghost t = s@.subrange(t0 as int, t1 as int);
                        proof {
                            lemma_utf8_len_subrange(line, 0, i as int);
                            assert(line.take(i as int) =~= line.subrange(0, i as int));
                            assert(s@.subrange(lo as int, lo + i) =~= line.take(i as int));
                        }
                        let off = utf8_len_range(s, lo, lo + i);
                        let col = base + off;
                        match find_in(s, t0, t1, hash.as_slice()) {
                            Some(h) => {
                                proof {
                                    lemma_find_from(t, hash_pat(), 0);
                                    assert(t.take(h - t0) =~= s@.subrange(t0 as int, h as int));
                                    assert(t.skip(h - t0 + 1) =~= s@.subrange(
                                        h + 1,
                                        t1 as int,
                                    ));
                                }
                                let (p0, p1) = trim_range(s, t0, h);
                                let (f0, f1) = trim_range(s, h + 1, t1);
                                if p0 < p1 {
                                    let fragment = if f0 < f1 {
                                        Some(string_of(s, f0, f1))
                                    } else {
                                        None
                                    };
                                    let link = RawLink {
                                        path: string_of(s, p0, p1),
                                        fragment,
                                        line: n,
                                        col,
                                    };
                                    out.push(link);
                                    proof {
                                        assert(links_view(out@) =~= before + here);
                                    }
                                } else {
                                    proof {
                                        assert(here =~= seq![]);
                                        assert(links_view(out@) =~= before + here);
                                    }
                                }
                            },
                            None => {
                                let link = RawLink {
                                    path: string_of(s, t0, t1),
                                    fragment: None,
                                    line: n,
                                    col,
                                };
                                out.push(link);
                                proof {
                                    assert(links_view(out@) =~= before + here);
                                }
                            },
                        }
                    } else {
                        proof {
                            assert(here =~= seq![]);
                            assert(links_view(out@) =~= before + here);
                        }
                    }
                    proof {
                        assert(scan_line(line, n, base as nat, i as int) == here + scan_line(
                            line,
                            n,
                            base as nat,
                            c + 2,
                        ));
                        assert(links_view(out@) + scan_line(line, n, base as nat, c + 2) =~= before
                            + scan_line(line, n, base as nat, i as int));
                    }
                    i = k - lo + 2;
                },
                None => {
                    i = i + 2;
                },
            }
        } else {
            i = i + 1;
        }
    }
    proof {
        assert(scan_line(line, n, base as nat, i as int) =~= seq![]);
        assert(links_view(out@) =~= start + scan_line(line, n, base as nat, 0));
    }
}

/// The links of a text held as characters.
fn links_in(s: &[char], out: &mut Vec<RawLink>)
    requires
        utf8_len(s@) <= usize::MAX,
    ensures
        links_view(final(out)@) == links_view(old(out)@) + text_links(s@),
{
    let ghost start = links_view(out@);
    let spans = line_spans(s);
    let ghost ls = lines(s@);
    let mut k: usize = 0;
    proof {
        lemma_lines_len(s@);
        assert(ls.take(0) =~= Seq::<Seq<char>>::empty());
        assert(links_view(out@) =~= start + links_of_lines(ls.take(0)));
    }
    while k < spans.len()
        invariant
            utf8_len(s@) <= usize::MAX,
            ls == lines(s@),
            ls.len() <= s@.len(),
            spans@.len() == ls.len(),
            forall|i: int|
                0 <= i < spans@.len() ==> {
                    &&& (#[trigger] spans@[i]).0 <= spans@[i].1 <= s@.len()
                    &&& s@.subrange(spans@[i].0 as int, spans@[i].1 as int) == ls[i]
                },
            k <= spans@.len(),
            links_view(out@) == start + links_of_lines(ls.take(k as int)),
        decreases spans@.len() - k,
    {
        let (lo, hi) = spans[k];
        proof {
            lemma_utf8_len_subrange(s@, lo as int, hi as int);
            lemma_links_of_lines_take(ls, k as int);
        }
        scan_line_into(s, lo, hi, (k + 1) as u32, 0, out);
        k = k + 1;
    }
    proof {
        assert(ls.take(k as int) =~= ls);
    }
}

/// Extract all `[[...]]` links from a string.
///
/// This is a pure text operation: it does not validate paths or expand `~`.
/// `[[` opens a link and the first `]]` after it on the same line closes it;
/// a `[[` inside an open link is part of its text. Empty links are skipped,
/// `#` splits path from fragment, and whitespace is trimmed from both.
pub fn extract_links(text: &str) -> (r: Vec<RawLink>)
    ensures
        links_view(r@) == text_links(text@),
{
    let s = chars_of(text);
    let mut out: Vec<RawLink> = Vec::new();
    links_in(s.as_slice(), &mut out);
    proof {
        assert(links_view(out@) =~= seq![] + text_links(text@));
    }
    out
}


// ---------------------------------------------------------------------------
// Comments

proof fn lemma_scan_lines(t: Seq<char>, n: u32, base: nat, i: int)
    ensures
        forall|j: int|
            0 <= j < scan_line(t, n, base, i).len() ==> (#[trigger] scan_line(t, n, base, i)[j]).line
                == n,
    decreases t.len() - i,
{
    if i < 0 || i + 1 >= t.len() {
    } else if t[i] == '[' && t[i + 1] == '[' {
        match find(t.skip(i + 2), close_pat()) {
            Some(d) => {
                lemma_find_from(t.skip(i + 2), close_pat(), 0);
                lemma_scan_lines(t, n, base, i + 2 + d + 2);
            },
            None => {
                lemma_scan_lines(t, n, base, i + 2);
            },
        }
    } else {
        lemma_scan_lines(t, n, base, i + 1);
    }
}

proof fn lemma_comment_links_take(ls: Seq<Seq<char>>, prefix: Seq<char>, k: int)
    requires
        0 <= k < ls.len(),
    ensures
        comment_links_of_lines(ls.take(k + 1), prefix) == comment_links_of_lines(ls.take(k), prefix)
            + line_comment_links(ls[k], prefix, (k + 1) as u32),
{
    assert(ls.take(k + 1).drop_last() =~= ls.take(k));
}

/// Extract links only from the comment part of each line: the text after
/// the first occurrence of `line_comment` (e.g. `//` or `#`), which covers
/// full-line comments and trailing comments alike. Columns count from the
/// start of the line.
pub fn extract_links_from_comments(text: &str, line_comment: &str) -> (r: Vec<RawLink>)
    ensures
        links_view(r@) == comment_links_of_lines(lines(text@), line_comment@),
{
    let s = chars_of(text);
    let p = chars_of(line_comment);
    let plen = p.len();
    let spans = line_spans(s.as_slice());
    let ghost ls = lines(s@);
    let ghost prefix = p@;
    let mut out: Vec<RawLink> = Vec::new();
    let mut k: usize = 0;
    proof {
        lemma_lines_len(s@);
        lemma_lines_no_newline(s@);
        assert(ls.take(0) =~= Seq::<Seq<char>>::empty());
        assert(links_view(out@) =~= comment_links_of_lines(ls.take(0), prefix));
    }
    while k < spans.len()
        invariant
            utf8_len(s@) <= usize::MAX,
            ls == lines(s@),
            prefix == p@,
            plen == p@.len(),
            ls.len() <= s@.len(),
            spans@.len() == ls.len(),
            forall|i: int|
                0 <= i < spans@.len() ==> {
                    &&& (#[trigger] spans@[i]).0 <= spans@[i].1 <= s@.len()
                    &&& s@.subrange(spans@[i].0 as int, spans@[i].1 as int) == ls[i]
                },
            forall|i: int, j: int|
                0 <= i < ls.len() && 0 <= j < ls[i].len() ==> #[trigger] ls[i][j] != '\n',
            k <= spans@.len(),
            links_view(out@) == comment_links_of_lines(ls.take(k as int), prefix),
        decreases spans@.len() - k,
    {
        let (lo, hi) = spans[k];
        let ghost line = ls[k as int];
        let ghost before = links_view(out@);
        proof {
            lemma_comment_links_take(ls, prefix, k as int);
        }
        match find_in(s.as_slice(), lo, hi, p.as_slice()) {
            Some(cs) => {
                let ghost c = cs - lo;
                proof {
                    lemma_find_from(line, prefix, 0);
                    assert(line.subrange(c as int, c + plen) =~= s@.subrange(
                        cs as int,
                        cs + plen,
                    ));
                    lemma_utf8_len_subrange(s@, lo as int, cs + plen);
                    lemma_utf8_len_subrange(s@, lo as int, hi as int);
                    let whole = s@.subrange(lo as int, hi as int);
                    lemma_utf8_len_subrange(whole, c as int, c + plen);
                    lemma_utf8_len_subrange(whole, 0, c + plen);
                    lemma_utf8_len_subrange(whole, c + plen, whole.len() as int);
                    assert(whole.subrange(c + plen, whole.len() as int) =~= s@.subrange(
                        cs + plen,
                        hi as int,
                    ));
                    assert(whole.subrange(0, c + plen) =~= s@.subrange(lo as int, cs + plen));
                    assert(whole.subrange(0, whole.len() as int) =~= whole);
                    assert(whole.subrange(0, c as int) =~= line.take(c as int));
                    assert(whole.subrange(c as int, c + plen) == prefix);
                }
                let base = utf8_len_range(s.as_slice(), lo, cs + plen);
                let ghost body = s@.subrange(cs + plen, hi as int);
                proof {
                    assert(body =~= line.skip(c + plen));
                    assert forall|j: int| 0 <= j < body.len() implies #[trigger] body[j] != '\n' by {
                        assert(body[j] == line[c + plen + j]);
                    }
                    lemma_text_links_single(body);
                    lemma_scan_relabel(body, 1, 0, 0, (k + 1) as u32, base as nat);
                }
                scan_line_into(s.as_slice(), cs + plen, hi, (k + 1) as u32, base, &mut out);
                proof {
                    assert(links_view(out@) =~= before + line_comment_links(
                        line,
                        prefix,
                        (k + 1) as u32,
                    ));
                }
            },
            None => {
                proof {
                    assert(links_view(out@) =~= before + line_comment_links(
                        line,
                        prefix,
                        (k + 1) as u32,
                    ));
                }
            },
        }
        k = k + 1;
    }
    proof {
        assert(ls.take(k as int) =~= ls);
    }
    out
}

// ---------------------------------------------------------------------------
// Block comments

/// The pieces of a block as character ranges of `s`.
pub open spec fn pieces_view(s: Seq<char>, pieces: Seq<(usize, usize)>) -> Seq<Seq<char>> {
    pieces.map_values(|p: (usize, usize)| s.subrange(p.0 as int, p.1 as int))
}

proof fn lemma_shift_add(a: Seq<LinkView>, b: Seq<LinkView>, first: int, lead: nat)
    ensures
        shift_lines(a + b, first, lead) == shift_lines(a, first, lead) + shift_lines(
            b,
            first,
            lead,
        ),
{
    assert(shift_lines(a + b, first, lead) =~= shift_lines(a, first, lead) + shift_lines(
        b,
        first,
        lead,
    ));
}

/// Appends the links of a closed block whose pieces are `pieces`, numbered
/// from line `first`, the columns on its first line moved by `lead`.
fn emit_block(
    s: &[char],
    pieces: &Vec<(usize, usize)>,
    first: usize,
    lead: usize,
    out: &mut Vec<RawLink>,
)
    requires
        utf8_len(s@) <= usize::MAX,
        pieces@.len() >= 1,
        lead <= utf8_len(s@.subrange(0, pieces@[0].0 as int)),
        first + pieces@.len() <= usize::MAX,
        forall|k: int|
            0 <= k < pieces@.len() ==> pieces@[0].0 <= (#[trigger] pieces@[k]).0 <= pieces@[k].1
                <= s@.len(),
        forall|k: int, j: int|
            #![trigger pieces@[k], s@[j]]
            0 <= k < pieces@.len() && pieces@[k].0 <= j < pieces@[k].1 ==> s@[j] != '\n',
    ensures
        links_view(final(out)@) == links_view(old(out)@) + shift_lines(
            text_links(join_lines(pieces_view(s@, pieces@))),
            first as int,
            lead as nat,
        ),
{
    let ghost pv = pieces_view(s@, pieces@);
    let ghost jl = joined_lines(pv);
    let ghost start = links_view(out@);
    let m = pieces.len();
    proof {
        assert forall|k: int, j: int| 0 <= k < pv.len() && 0 <= j < pv[k].len() implies #[trigger] pv[k][j]
            != '\n' by {
            assert(pv[k][j] == s@[pieces@[k].0 + j]);
        }
        lemma_lines_join(pv);
    }
    let (la, lb) = pieces[m - 1];
    let count = if la == lb {
        m - 1
    } else {
        m
    };
    proof {
        assert(pv.last() == s@.subrange(la as int, lb as int));
        assert(jl.len() == count);
        assert(jl.take(0) =~= Seq::<Seq<char>>::empty());
        assert(links_view(out@) =~= start + shift_lines(
            links_of_lines(jl.take(0)),
            first as int,
            lead as nat,
        ));
    }
    let mut k: usize = 0;
    while k < count
        invariant
            utf8_len(s@) <= usize::MAX,
            m == pieces@.len(),
            pv == pieces_view(s@, pieces@),
            jl == joined_lines(pv),
            jl.len() == count,
            count <= m,
            first + m <= usize::MAX,
            forall|i: int|
                0 <= i < m ==> pieces@[0].0 <= (#[trigger] pieces@[i]).0 <= pieces@[i].1 <= s@.len(),
            lead <= utf8_len(s@.subrange(0, pieces@[0].0 as int)),
            k <= count,
            links_view(out@) == start + shift_lines(
                links_of_lines(jl.take(k as int)),
                first as int,
                lead as nat,
            ),
        decreases count - k,
    {
        let (a, b0) = pieces[k];
        let b = if k + 1 < m && b0 > a && s[b0 - 1] == '\r' {
            b0 - 1
        } else {
            b0
        };
        let line_no = (k + 1) as u32;
        let n = (first + line_no as usize) as u32;
        let base = if line_no == 1 {
            lead
        } else {
            0
        };
        proof {
            let t = s@.subrange(a as int, b0 as int);
            assert(pv[k as int] == t);
            if k + 1 < m {
                assert(jl[k as int] == strip_cr(t));
                assert(strip_cr(t) =~= s@.subrange(a as int, b as int));
            } else {
                assert(jl[k as int] == t);
            }
            lemma_utf8_len_subrange(s@, a as int, b as int);
            let a0 = pieces@[0].0 as int;
            lemma_utf8_len_split(s@, 0, a0, b as int);
            lemma_utf8_len_split(s@, a0, a as int, b as int);
            lemma_links_of_lines_take(jl, k as int);
            lemma_shift_add(
                links_of_lines(jl.take(k as int)),
                scan_line(jl[k as int], (k + 1) as u32, 0, 0),
                first as int,
                lead as nat,
            );
            lemma_scan_lines(jl[k as int], (k + 1) as u32, 0, 0);
            lemma_scan_relabel(jl[k as int], (k + 1) as u32, 0, 0, n, base as nat);
            assert(shift_lines(
                scan_line(jl[k as int], (k + 1) as u32, 0, 0),
                first as int,
                lead as nat,
            ) =~= relabel_all(scan_line(jl[k as int], (k + 1) as u32, 0, 0), n, base as nat));
        }
        scan_line_into(s, a, b, n, base, out);
        k = k + 1;
    }
    proof {
        assert(jl.take(k as int) =~= jl);
    }
}

proof fn lemma_utf8_len_split(s: Seq<char>, lo: int, mid: int, hi: int)
    requires
        0 <= lo <= mid <= hi <= s.len(),
    ensures
        utf8_len(s.subrange(lo, hi)) == utf8_len(s.subrange(lo, mid)) + utf8_len(
            s.subrange(mid, hi),
        ),
        utf8_len(s.subrange(lo, hi)) <= utf8_len(s),
{
    let w = s.subrange(lo, hi);
    lemma_utf8_len_subrange(w, mid - lo, hi - lo);
    assert(w.subrange(0, hi - lo) =~= w);
    assert(w.subrange(0, mid - lo) =~= s.subrange(lo, mid));
    assert(w.subrange(mid - lo, hi - lo) =~= s.subrange(mid, hi));
    lemma_utf8_len_subrange(s, lo, hi);
}

proof fn lemma_shift_single(t: Seq<char>, n: u32)
    requires
        forall|j: int| 0 <= j < t.len() ==> #[trigger] t[j] != '\n',
    ensures
        relabel_all(text_links(t), n, 0) == scan_line(t, n, 0, 0),
{
    lemma_text_links_single(t);
    lemma_scan_relabel(t, 1, 0, 0, n, 0);
}

/// Extract links from block comments only: the text between `open` (e.g.
/// `/*`) and `close` (e.g. `*/`). Columns count from the start of the line,
/// the line of `open` included.
pub fn extract_links_from_block_comments(text: &str, open: &str, close: &str) -> (r: Vec<RawLink>)
    ensures
        links_view(r@) == block_links(lines(text@), open@, close@, 0, false, seq![], 0, 0),
{
    let s = chars_of(text);
    let o = chars_of(open);
    let c = chars_of(close);
    let olen = o.len();
    let spans = line_spans(s.as_slice());
    let ghost ls = lines(s@);
    let ghost target = block_links(ls, o@, c@, 0, false, seq![], 0, 0);
    let mut out: Vec<RawLink> = Vec::new();
    let mut in_block = false;
    let mut pieces: Vec<(usize, usize)> = Vec::new();
    let mut first: usize = 0;
    let mut lead: usize = 0;
    let mut i: usize = 0;
    proof {
        lemma_lines_len(s@);
        lemma_lines_no_newline(s@);
        assert(pieces_view(s@, pieces@) =~= Seq::<Seq<char>>::empty());
        assert(links_view(out@) + target =~= target);
    }
    while i < spans.len()
        invariant
            utf8_len(s@) <= usize::MAX,
            ls == lines(s@),
            olen == o@.len(),
            ls.len() <= s@.len(),
            spans@.len() == ls.len(),
            forall|k: int|
                0 <= k < spans@.len() ==> {
                    &&& (#[trigger] spans@[k]).0 <= spans@[k].1 <= s@.len()
                    &&& s@.subrange(spans@[k].0 as int, spans@[k].1 as int) == ls[k]
                },
            forall|k: int, j: int|
                0 <= k < ls.len() && 0 <= j < ls[k].len() ==> #[trigger] ls[k][j] != '\n',
            i <= spans@.len(),
            target == block_links(ls, o@, c@, 0, false, seq![], 0, 0),
            forall|k: int|
                0 <= k < pieces@.len() ==> pieces@[0].0 <= (#[trigger] pieces@[k]).0
                    <= pieces@[k].1 <= s@.len(),
            forall|k: int, j: int|
                #![trigger pieces@[k], s@[j]]
                0 <= k < pieces@.len() && pieces@[k].0 <= j < pieces@[k].1 ==> s@[j] != '\n',
            in_block ==> pieces@.len() >= 1 && first + pieces@.len() == i,
            in_block ==> lead <= utf8_len(s@.subrange(0, pieces@[0].0 as int)),
            in_block && i < spans@.len() ==> pieces@[0].0 <= spans@[i as int].0,
            forall|k: int, j: int|
                0 <= k < j < spans@.len() ==> (#[trigger] spans@[k]).1 <= (#[trigger] spans@[j]).0,
            !in_block ==> pieces@.len() == 0 && first == 0 && lead == 0,
            links_view(out@) + block_links(
                ls,
                o@,
                c@,
                i as int,
                in_block,
                pieces_view(s@, pieces@),
                first as int,
                lead as nat,
            ) == target,
        decreases spans@.len() - i,
    {
        let (lo, hi) = spans[i];
        let ghost line = ls[i as int];
        let ghost before = links_view(out@);
        let ghost pv = pieces_view(s@, pieces@);
        let ghost old_in = in_block;
        let ghost old_first = first;
        let ghost old_lead = lead;
        proof {
            assert forall|j: int| lo <= j < hi implies #[trigger] s@[j] != '\n' by {
                assert(s@[j] == line[j - lo]);
            }
        }
        if in_block {
            match find_in(s.as_slice(), lo, hi, c.as_slice()) {
                Some(p) => {
                    proof {
                        lemma_find_from(line, c@, 0);
                    }
                    pieces.push((lo, p));
                    proof {
                        assert(line.take(p - lo) =~= s@.subrange(lo as int, p as int));
                        assert(pieces_view(s@, pieces@) =~= pv.push(line.take(p - lo)));
                    }
                    emit_block(s.as_slice(), &pieces, first, lead, &mut out);
                    pieces = Vec::new();
                    first = 0;
                    lead = 0;
                    in_block = false;
                    proof {
                        assert(pieces_view(s@, pieces@) =~= Seq::<Seq<char>>::empty());
                        assert(links_view(out@) + block_links(
                            ls,
                            o@,
                            c@,
                            i + 1,
                            in_block,
                            pieces_view(s@, pieces@),
                            first as int,
                            lead as nat,
                        ) =~= before + block_links(
                            ls,
                            o@,
                            c@,
                            i as int,
                            old_in,
                            pv,
                            old_first as int,
                            old_lead as nat,
                        ));
                    }
                },
                None => {
                    pieces.push((lo, hi));
                    proof {
                        assert(line =~= s@.subrange(lo as int, hi as int));
                        assert(pieces_view(s@, pieces@) =~= pv.push(line));
                        assert(links_view(out@) + block_links(
                            ls,
                            o@,
                            c@,
                            i + 1,
                            in_block,
                            pieces_view(s@, pieces@),
                            first as int,
                            lead as nat,
                        ) =~= before + block_links(
                            ls,
                            o@,
                            c@,
                            i as int,
                            old_in,
                            pv,
                            old_first as int,
                            old_lead as nat,
                        ));
                    }
                },
            }
        } else {
            match find_in(s.as_slice(), lo, hi, o.as_slice()) {
                Some(p) => {
                    proof {
                        lemma_find_from(line, o@, 0);
                        assert(line.skip(p - lo + olen) =~= s@.subrange(p + olen, hi as int));
                    }
                    let a = p + olen;
                    proof {
                        assert(line.subrange(p - lo, p - lo + olen) =~= s@.subrange(
                            p as int,
                            a as int,
                        ));
                        assert(line.take(p - lo) =~= s@.subrange(lo as int, p as int));
                        lemma_utf8_len_split(s@, lo as int, p as int, a as int);
                        lemma_utf8_len_split(s@, lo as int, a as int, hi as int);
                    }
                    let at = utf8_len_range(s.as_slice(), lo, a);
                    proof {
                        lemma_utf8_len_split(s@, 0, lo as int, a as int);
                        if i + 1 < spans@.len() {
                            assert(spans@[i as int].1 <= spans@[i + 1].0);
                        }
                    }
                    match find_in(s.as_slice(), a, hi, c.as_slice()) {
                        Some(q) => {
                            proof {
                                let after = line.skip(p - lo + olen);
                                lemma_find_from(after, c@, 0);
                                assert(after.take(q - a) =~= s@.subrange(a as int, q as int));
                                assert forall|j: int| 0 <= j < after.take(q - a).len() implies #[trigger] after.take(
                                    q - a,
                                )[j] != '\n' by {
                                    assert(after.take(q - a)[j] == s@[a + j]);
                                }
                                lemma_text_links_single(after.take(q - a));
                                lemma_scan_relabel(after.take(q - a), 1, 0, 0, (i + 1) as u32, at as nat);
                                lemma_utf8_len_split(s@, lo as int, a as int, q as int);
                            }
                            scan_line_into(s.as_slice(), a, q, (i + 1) as u32, at, &mut out);
                            proof {
                                assert(pv =~= Seq::<Seq<char>>::empty());
                                assert(links_view(out@) + block_links(
                                    ls,
                                    o@,
                                    c@,
                                    i + 1,
                                    in_block,
                                    pieces_view(s@, pieces@),
                                    first as int,
                                    lead as nat,
                                ) =~= before + block_links(
                                    ls,
                                    o@,
                                    c@,
                                    i as int,
                                    old_in,
                                    pv,
                                    old_first as int,
                                    old_lead as nat,
                                ));
                            }
                        },
                        None => {
                            pieces.push((a, hi));
                            first = i;
                            lead = at;
                            in_block = true;
                            proof {
                                assert(pieces_view(s@, pieces@) =~= seq![
                                    line.skip(p - lo + olen),
                                ]);
                                assert(pv =~= Seq::<Seq<char>>::empty());
                                assert(links_view(out@) + block_links(
                                    ls,
                                    o@,
                                    c@,
                                    i + 1,
                                    in_block,
                                    pieces_view(s@, pieces@),
                                    first as int,
                                    lead as nat,
                                ) =~= before + block_links(
                                    ls,
                                    o@,
                                    c@,
                                    i as int,
                                    old_in,
                                    pv,
                                    old_first as int,
                                    old_lead as nat,
                                ));
                            }
                        },
                    }
                },
                None => {
                    proof {
                        assert(pv =~= Seq::<Seq<char>>::empty());
                        assert(links_view(out@) + block_links(
                            ls,
                            o@,
                            c@,
                            i + 1,
                            in_block,
                            pieces_view(s@, pieces@),
                            first as int,
                            lead as nat,
                        ) =~= before + block_links(
                            ls,
                            o@,
                            c@,
                            i as int,
                            old_in,
                            pv,
                            old_first as int,
                            old_lead as nat,
                        ));
                    }
                },
            }
        }
        i = i + 1;
    }
    proof {
        assert(links_view(out@) =~= target);
    }
    out
}

/// `c` does not occur in `s`.
pub open spec fn lacks(s: Seq<char>, c: char) -> bool {
    forall|i: int| 0 <= i < s.len() ==> #[trigger] s[i] != c
}

/// `]]` does not occur in `s`.
pub open spec fn lacks_close(s: Seq<char>) -> bool {
    forall|i: int| 0 <= i < s.len() - 1 ==> !(#[trigger] s[i] == ']' && s[i + 1] == ']')
}

/// A link obeys the scanner's rules: its path is not empty and holds no
/// `#`; neither path nor fragment spans lines, holds `]]` or has white
/// space at its ends; and a fragment is not empty.
pub open spec fn link_follows_rules(l: LinkView) -> bool {
    &&& l.path.len() > 0
    &&& trim(l.path) == l.path
    &&& no_newline(l.path)
    &&& lacks(l.path, '#')
    &&& lacks_close(l.path)
    &&& (l.fragment matches Some(f) ==> {
        &&& f.len() > 0
        &&& trim(f) == f
        &&& no_newline(f)
        &&& lacks_close(f)
    })
}

/// `[[` stands at index `j` of `line`.
pub open spec fn opens_at(line: Seq<char>, j: int) -> bool {
    0 <= j && j + 1 < line.len() && line[j] == '[' && line[j + 1] == '['
}

/// A link's text stands in `line` from index `j` to `c + 2`: `[[` at `j`,
/// `]]` at `c`.
pub open spec fn link_at(line: Seq<char>, j: int, c: int) -> bool {
    &&& opens_at(line, j)
    &&& j + 2 <= c
    &&& c + 2 <= line.len()
    &&& line[c] == ']'
    &&& line[c + 1] == ']'
}

/// What holds of `s` holds of its piece `s[a..b]`: no newline, no `c`, no
/// `]]`.
proof fn lemma_piece_lacks(s: Seq<char>, a: int, b: int, c: char)
    requires
        0 <= a <= b <= s.len(),
    ensures
        no_newline(s) ==> no_newline(s.subrange(a, b)),
        lacks(s, c) ==> lacks(s.subrange(a, b), c),
        lacks_close(s) ==> lacks_close(s.subrange(a, b)),
{
    let t = s.subrange(a, b);
    assert forall|i: int| 0 <= i < t.len() implies #[trigger] t[i] == s[a + i] by {}
    if lacks_close(s) {
        assert forall|i: int| 0 <= i < t.len() - 1 implies !(#[trigger] t[i] == ']' && t[i + 1]
            == ']') by {
            assert(t[i] == s[a + i] && t[i + 1] == s[a + i + 1]);
        }
    }
}

/// Trimming keeps a text free of newlines, of `c` and of `]]`.
proof fn lemma_trim_lacks(s: Seq<char>, c: char)
    ensures
        no_newline(s) ==> no_newline(trim(s)),
        lacks(s, c) ==> lacks(trim(s), c),
        lacks_close(s) ==> lacks_close(trim(s)),
{
    let (a, b) = lemma_trim_window(s);
    lemma_piece_lacks(s, a, b, c);
}

proof fn lemma_link_parts_rules(inner: Seq<char>, n: u32, col: nat)
    requires
        no_newline(inner),
        lacks_close(inner),
    ensures
        link_parts(inner) matches Some(pf) ==> link_follows_rules(
            LinkView { path: pf.0, fragment: pf.1, line: n, col },
        ),
{
    let t = trim(inner);
    lemma_trim_props(inner);
    lemma_trim_lacks(inner, '#');
    if t.len() > 0 {
        match find(t, hash_pat()) {
            Some(h) => {
                lemma_find_from(t, hash_pat(), 0);
                let a = t.take(h);
                let b = t.skip(h + 1);
                lemma_piece_lacks(t, 0, h, '#');
                lemma_piece_lacks(t, h + 1, t.len() as int, '#');
                assert(a =~= t.subrange(0, h));
                assert(b =~= t.subrange(h + 1, t.len() as int));
                assert(lacks(a, '#')) by {
                    assert forall|i: int| 0 <= i < a.len() implies #[trigger] a[i] != '#' by {
                        if a[i] == '#' {
                            assert(t.subrange(i, i + 1) =~= hash_pat());
                            assert(matches_at(t, hash_pat(), i));
                        }
                    }
                }
                lemma_trim_props(a);
                lemma_trim_props(b);
                lemma_trim_lacks(a, '#');
                lemma_trim_lacks(b, '#');
            },
            None => {
                lemma_find_from(t, hash_pat(), 0);
                assert forall|i: int| 0 <= i < t.len() implies #[trigger] t[i] != '#' by {
                    if t[i] == '#' {
                        assert(t.subrange(i, i + 1) =~= hash_pat());
                        assert(matches_at(t, hash_pat(), i));
                    }
                }
            },
        }
    }
}

/// The links `scan_line` finds from index `i`: they obey the rules, carry
/// line number `n`, each has its column at a `[[` at or after `i` (counted
/// from `base`), and their columns increase.
#[verifier::spinoff_prover]
#[verifier::rlimit(40)]
proof fn lemma_scan_line_rules(line: Seq<char>, n: u32, base: nat, i: int)
    requires
        no_newline(line),
        0 <= i <= line.len(),
    ensures
        forall|k: int|
            0 <= k < scan_line(line, n, base, i).len() ==> {
                &&& link_follows_rules(#[trigger] scan_line(line, n, base, i)[k])
                &&& scan_line(line, n, base, i)[k].line == n
                &&& scan_line(line, n, base, i)[k].col >= base + utf8_len(line.take(i))
                &&& exists|j: int, c: int|
                    i <= j && #[trigger] link_at(line, j, c) && scan_line(line, n, base, i)[k].col
                        == base + utf8_len(line.take(j))
            },
        forall|k: int, l: int|
            0 <= k < l < scan_line(line, n, base, i).len() ==> (#[trigger] scan_line(
                line,
                n,
                base,
                i,
            )[k]).col < (#[trigger] scan_line(line, n, base, i)[l]).col,
    decreases line.len() - i,
{
    let sc = scan_line(line, n, base, i);
    if !(i < 0 || i + 1 >= line.len()) {
        if line[i] == '[' && line[i + 1] == '[' {
            match find(line.skip(i + 2), close_pat()) {
                Some(d) => {
                    let rest0 = line.skip(i + 2);
                    lemma_find_from(rest0, close_pat(), 0);
                    let c = i + 2 + d;
                    let inner = line.subrange(i + 2, c);
                    lemma_piece_lacks(line, i + 2, c, '#');
                    assert(lacks_close(inner)) by {
                        assert forall|j: int| 0 <= j < inner.len() - 1 implies !(#[trigger] inner[j]
                            == ']' && inner[j + 1] == ']') by {
                            if inner[j] == ']' && inner[j + 1] == ']' {
                                assert(rest0.subrange(j, j + 2) =~= close_pat());
                                assert(matches_at(rest0, close_pat(), j));
                            }
                        }
                    }
                    let col = base + utf8_len(line.take(i));
                    lemma_link_parts_rules(inner, n, col);
                    lemma_scan_line_rules(line, n, base, c + 2);
                    lemma_utf8_len_take_increases(line, i, c + 2);
                    assert(rest0.subrange(d, d + 2) == close_pat());
                    assert(line[c] == rest0[d] && line[c + 1] == rest0[d + 1]);
                    assert(link_at(line, i, c));
                    let here = match link_parts(inner) {
                        Some(pf) => seq![LinkView { path: pf.0, fragment: pf.1, line: n, col }],
                        None => seq![],
                    };
                    let rest = scan_line(line, n, base, c + 2);
                    assert(sc == here + rest);
                    assert forall|k: int| 0 <= k < sc.len() implies {
                        &&& link_follows_rules(#[trigger] sc[k])
                        &&& sc[k].line == n
                        &&& sc[k].col >= base + utf8_len(line.take(i))
                        &&& exists|j: int, c: int|
                            i <= j && #[trigger] link_at(line, j, c) && sc[k].col == base + utf8_len(
                                line.take(j),
                            )
                    } by {
                        if k >= here.len() {
                            assert(sc[k] == rest[k - here.len()]);
                        } else {
                            assert(sc[k] == here[k]);
                        }
                    }
                    assert forall|k: int, l: int| 0 <= k < l < sc.len() implies (#[trigger] sc[k]).col
                        < (#[trigger] sc[l]).col by {
                        assert(sc[l] == rest[l - here.len()]);
                        if k >= here.len() {
                            assert(sc[k] == rest[k - here.len()]);
                        }
                    }
                },
                None => {
                    lemma_scan_line_rules(line, n, base, i + 2);
                    lemma_utf8_len_take_increases(line, i, i + 2);
                },
            }
        } else {
            lemma_scan_line_rules(line, n, base, i + 1);
            lemma_utf8_len_take_increases(line, i, i + 1);
        }
    }
}

/// Links in a list are ordered by line, and by column within a line.
pub open spec fn links_in_order(v: Seq<LinkView>) -> bool {
    forall|k: int, l: int|
        0 <= k < l < v.len() ==> (#[trigger] v[k]).line < (#[trigger] v[l]).line || (v[k].line
            == v[l].line && v[k].col < v[l].col)
}

/// Link `l` of a text obeys the rules, names a line of `ls`, its text
/// (`[[` to `]]`) stands on that line, and its column is the byte offset of
/// its `[[` there.
pub open spec fn link_in_lines(l: LinkView, ls: Seq<Seq<char>>) -> bool {
    &&& link_follows_rules(l)
    &&& 1 <= l.line <= ls.len()
    &&& exists|j: int, c: int|
        #[trigger] link_at(ls[l.line - 1], j, c) && l.col == utf8_len(ls[l.line - 1].take(j))
}

#[verifier::spinoff_prover]
#[verifier::rlimit(40)]
proof fn lemma_links_of_lines_rules(ls: Seq<Seq<char>>)
    requires
        forall|k: int| 0 <= k < ls.len() ==> no_newline(#[trigger] ls[k]),
        ls.len() <= u32::MAX,
    ensures
        forall|k: int|
            0 <= k < links_of_lines(ls).len() ==> link_in_lines(#[trigger] links_of_lines(ls)[k], ls),
        links_in_order(links_of_lines(ls)),
    decreases ls.len(),
{
    if ls.len() > 0 {
        let p = ls.drop_last();
        lemma_links_of_lines_rules(p);
        let m = ls.len() - 1;
        assert(no_newline(ls[m]));
        lemma_scan_line_rules(ls.last(), ls.len() as u32, 0, 0);
        let a = links_of_lines(p);
        let b = scan_line(ls.last(), ls.len() as u32, 0, 0);
        let all = links_of_lines(ls);
        assert(all == a + b);
        assert forall|k: int| 0 <= k < all.len() implies link_in_lines(#[trigger] all[k], ls) by {
            if k < a.len() {
                assert(all[k] == a[k]);
                assert(link_in_lines(a[k], p));
                let q = a[k].line - 1;
                assert(p[q] == ls[q]);
                let (j, c) = choose|j: int, c: int|
                    #[trigger] link_at(p[q], j, c) && a[k].col == utf8_len(p[q].take(j));
                assert(link_at(ls[q], j, c));
            } else {
                assert(all[k] == b[k - a.len()]);
                let (j, c) = choose|j: int, c: int|
                    0 <= j && #[trigger] link_at(ls.last(), j, c) && b[k - a.len()].col == 0
                        + utf8_len(ls.last().take(j));
                assert(ls[all[k].line - 1] == ls.last());
                assert(link_at(ls[all[k].line - 1], j, c));
            }
        }
        assert forall|k: int, l: int| 0 <= k < l < all.len() implies (#[trigger] all[k]).line < (
        #[trigger] all[l]).line || (all[k].line == all[l].line && all[k].col < all[l].col) by {
            if l < a.len() {
                assert(all[k] == a[k] && all[l] == a[l]);
            } else if k < a.len() {
                assert(all[k] == a[k] && all[l] == b[l - a.len()]);
                assert(link_in_lines(a[k], p));
            } else {
                assert(all[k] == b[k - a.len()] && all[l] == b[l - a.len()]);
            }
        }
    }
}

/// The rules of link extraction hold of every link found in a text: links
/// cannot span lines, empty links are skipped, `#` splits the path from the
/// fragment (a path holds no `#`), a link ends at the first `]]` (neither
/// part holds `]]`), whitespace is trimmed from path and fragment, each link
/// carries the number (from 1) of its line and, as its column, the byte
/// offset of its `[[` on that line; links come in the order of their lines
/// and, within a line, of their columns.
pub proof fn law_link_rules(text: Seq<char>)
    requires
        lines(text).len() <= u32::MAX,
    ensures
        forall|k: int|
            0 <= k < text_links(text).len() ==> link_in_lines(
                #[trigger] text_links(text)[k],
                lines(text),
            ),
        links_in_order(text_links(text)),
{
    lemma_lines_no_newline(text);
    let ls = lines(text);
    assert forall|k: int| 0 <= k < ls.len() implies no_newline(#[trigger] ls[k]) by {
        assert forall|j: int| 0 <= j < ls[k].len() implies #[trigger] ls[k][j] != '\n' by {
            assert(ls[k][j] != '\n');
        }
    }
    lemma_links_of_lines_rules(ls);
}

/// The comment links of lines `ls` found one line at a time: on each line
/// that holds `prefix`, the links of the text after its first `prefix`,
/// read as a text of its own, numbered with the line, their columns moved
/// by the bytes of the line up to the end of that `prefix`.
pub open spec fn comment_links_by_line(ls: Seq<Seq<char>>, prefix: Seq<char>) -> Seq<LinkView>
    decreases ls.len(),
{
    if ls.len() == 0 {
        seq![]
    } else {
        let line = ls.last();
        comment_links_by_line(ls.drop_last(), prefix) + match find(line, prefix) {
            Some(cs) => relabel_all(
                text_links(line.skip(cs + prefix.len())),
                ls.len() as u32,
                utf8_len(line.take(cs + prefix.len())),
            ),
            None => seq![],
        }
    }
}

/// Every link in a comment is found: the links `extract_links_from_comments`
/// finds are, line by line, all the links `extract_links` finds in the text
/// after each line's first comment prefix, none dropped and none added,
/// numbered with their line, their columns counted from the line start.
pub proof fn law_comment_links_are_body_links(text: Seq<char>, prefix: Seq<char>)
    ensures
        comment_links_of_lines(lines(text), prefix) == comment_links_by_line(lines(text), prefix),
{
    lemma_comment_by_line(lines(text), prefix);
}

proof fn lemma_comment_by_line(ls: Seq<Seq<char>>, prefix: Seq<char>)
    ensures
        comment_links_of_lines(ls, prefix) == comment_links_by_line(ls, prefix),
    decreases ls.len(),
{
    if ls.len() > 0 {
        lemma_comment_by_line(ls.drop_last(), prefix);
        let line = ls.last();
        match find(line, prefix) {
            Some(cs) => {
                lemma_find_from(line, prefix, 0);
                lemma_utf8_len_subrange(line, cs, cs + prefix.len());
                assert(line.subrange(cs, cs + prefix.len()) == prefix);
                assert(line.take(cs + prefix.len()) =~= line.subrange(0, cs + prefix.len()));
                assert(line.take(cs) =~= line.subrange(0, cs));
            },
            None => {},
        }
    }
}

// ---------------------------------------------------------------------------
// Every link is found.

/// The text of a link: `[[`, `inner`, `]]`.
pub open spec fn link_text(inner: Seq<char>) -> Seq<char> {
    seq!['[', '['] + inner + seq![']', ']']
}

proof fn lemma_scan_plain(t: Seq<char>, n: u32, base: nat, i: int, j: int)
    requires
        0 <= i <= j <= t.len(),
        forall|k: int| i <= k < j ==> t[k] != '[',
    ensures
        scan_line(t, n, base, i) == scan_line(t, n, base, j),
    decreases j - i,
{
    if i < j {
        lemma_scan_plain(t, n, base, i + 1, j);
    }
}

proof fn lemma_scan_shift(u: Seq<char>, v: Seq<char>, n: u32, base: nat, i: int)
    requires
        0 <= i,
    ensures
        scan_line(u + v, n, base, u.len() + i) == scan_line(v, n, base + utf8_len(u), i),
    decreases v.len() - i,
{
    let t = u + v;
    let k = u.len() + i;
    if i + 1 < v.len() {
        assert(t[k] == v[i] && t[k + 1] == v[i + 1]);
        if v[i] == '[' && v[i + 1] == '[' {
            assert(t.skip(k + 2) =~= v.skip(i + 2));
            match find(v.skip(i + 2), close_pat()) {
                Some(d) => {
                    lemma_find_from(v.skip(i + 2), close_pat(), 0);
                    let c = i + 2 + d;
                    assert(t.subrange(k + 2, u.len() + c) =~= v.subrange(i + 2, c));
                    assert(t.take(k) =~= u + v.take(i));
                    lemma_encode_utf8_add(u, v.take(i));
                    lemma_scan_shift(u, v, n, base, c + 2);
                },
                None => {
                    lemma_scan_shift(u, v, n, base, i + 2);
                },
            }
        } else {
            lemma_scan_shift(u, v, n, base, i + 1);
        }
    }
}

proof fn lemma_find_close(rest: Seq<char>, m: int)
    requires
        0 <= m,
        m + 2 <= rest.len(),
        rest[m] == ']',
        rest[m + 1] == ']',
        forall|d: int| 0 <= d < m ==> rest[d] != ']',
    ensures
        find(rest, close_pat()) == Some(m),
{
    lemma_find_from(rest, close_pat(), 0);
    assert(rest.subrange(m, m + 2) =~= close_pat());
    assert(matches_at(rest, close_pat(), m));
    assert forall|d: int| 0 <= d < m implies !matches_at(rest, close_pat(), d) by {
        if matches_at(rest, close_pat(), d) {
            assert(rest.subrange(d, d + 2)[0] == rest[d]);
        }
    }
    match find_from(rest, close_pat(), 0) {
        Some(c) => {
            if c < m {
                assert(!matches_at(rest, close_pat(), c));
            } else if c > m {
                assert(!matches_at(rest, close_pat(), m));
            }
        },
        None => {
            assert(!matches_at(rest, close_pat(), m));
        },
    }
}

proof fn lemma_scan_link_head(x: Seq<char>, w: Seq<char>, n: u32, b: nat)
    requires
        lacks(x, ']'),
    ensures
        scan_line(link_text(x) + w, n, b, 0) == match link_parts(x) {
            Some(pf) => seq![LinkView { path: pf.0, fragment: pf.1, line: n, col: b }],
            None => seq![],
        } + scan_line(link_text(x) + w, n, b, x.len() + 4int),
{
    let r = link_text(x) + w;
    assert(r[0] == '[' && r[1] == '[');
    let rest = r.skip(2);
    assert(rest =~= x + seq![']', ']'] + w);
    assert forall|d: int| 0 <= d < x.len() implies rest[d] != ']' by {
        assert(rest[d] == x[d]);
    }
    assert(rest[x.len() as int] == ']' && rest[x.len() + 1int] == ']');
    lemma_find_close(rest, x.len() as int);
    assert(r.subrange(2, 2 + x.len() as int) =~= x);
    assert(r.take(0) =~= Seq::<char>::empty());
    assert(encode_utf8(Seq::<char>::empty()) =~= Seq::<u8>::empty());
}

/// Every link of a line is found, in order: a line made of text without
/// `[` followed by a link text `[[x]]` (with no `]` in `x`) and any rest has
/// as its links the one `x` makes, at the byte offset of its `[[`, followed
/// by all the links of the rest, their columns moved by the bytes before
/// the rest. So no link after another one is dropped, and none is added.
pub proof fn law_every_link_is_found(u: Seq<char>, x: Seq<char>, w: Seq<char>, n: u32, base: nat)
    requires
        lacks(u, '['),
        lacks(x, ']'),
    ensures
        scan_line(u + link_text(x) + w, n, base, 0) == match link_parts(x) {
            Some(pf) => seq![
                LinkView { path: pf.0, fragment: pf.1, line: n, col: base + utf8_len(u) },
            ],
            None => seq![],
        } + scan_line(w, n, base + utf8_len(u + link_text(x)), 0),
{
    let lt = link_text(x);
    let r = lt + w;
    let t = u + lt + w;
    assert(t =~= u + r);
    lemma_scan_plain(u + r, n, base, 0, u.len() as int);
    lemma_scan_shift(u, r, n, base, 0);
    let b1 = base + utf8_len(u);
    lemma_scan_link_head(x, w, n, b1);
    lemma_scan_shift(lt, w, n, b1, 0);
    lemma_encode_utf8_add(u, lt);
}

/// A line without `[` has no links.
pub proof fn law_no_brackets_no_links(u: Seq<char>, n: u32, base: nat)
    requires
        lacks(u, '['),
    ensures
        scan_line(u, n, base, 0) == Seq::<LinkView>::empty(),
{
    lemma_scan_plain(u, n, base, 0, u.len() as int);
}

// ---------------------------------------------------------------------------
// Where block-comment links stand.

/// The stretches of the lines `ls[i..]` that block comments cover, each as
/// (line index, start, end): outside a block, the first `open` on a line
/// starts one, which covers the rest of the line up to the first `close`
/// after the `open`, or, without one, the rest of the line and the
/// following lines up to the first `close`. `pend` holds the stretches of a
/// block not yet closed; a block left open at the end covers nothing that
/// links are taken from.
pub open spec fn block_spans(
    ls: Seq<Seq<char>>,
    open: Seq<char>,
    close: Seq<char>,
    i: int,
    in_block: bool,
    pend: Seq<(int, int, int)>,
) -> Seq<(int, int, int)>
    decreases ls.len() - i,
{
    if i < 0 || i >= ls.len() {
        seq![]
    } else {
        let line = ls[i];
        if in_block {
            match find(line, close) {
                Some(p) => pend.push((i, 0, p)) + block_spans(ls, open, close, i + 1, false, seq![]),
                None => block_spans(ls, open, close, i + 1, true, pend.push((i, 0, line.len() as int))),
            }
        } else {
            match find(line, open) {
                Some(p) => {
                    let a = p + open.len();
                    match find(line.skip(a), close) {
                        Some(q) => seq![(i, a, a + q)] + block_spans(
                            ls,
                            open,
                            close,
                            i + 1,
                            false,
                            seq![],
                        ),
                        None => block_spans(ls, open, close, i + 1, true, seq![(i, a, line.len() as int)]),
                    }
                },
                None => block_spans(ls, open, close, i + 1, false, seq![]),
            }
        }
    }
}

/// Link `l` stands inside the stretch `sp` of the lines `ls`: on its line,
/// its text from `[[` to `]]` lies within the stretch, and its column is the
/// byte offset of its `[[` in the line.
pub open spec fn link_in_span(l: LinkView, sp: (int, int, int), ls: Seq<Seq<char>>) -> bool {
    &&& 0 <= sp.0 < ls.len()
    &&& sp.0 == l.line - 1
    &&& exists|j: int, c: int|
        sp.1 <= j && c + 2 <= sp.2 && #[trigger] link_at(ls[sp.0], j, c) && l.col == utf8_len(
            ls[sp.0].take(j),
        )
}

/// Link `l` stands inside one of the stretches `sps`.
pub open spec fn link_in_spans(l: LinkView, sps: Seq<(int, int, int)>, ls: Seq<Seq<char>>) -> bool {
    exists|t: int| 0 <= t < sps.len() && link_in_span(l, #[trigger] sps[t], ls)
}

/// Every link of `v` obeys the rules and stands inside one of `sps`.
pub open spec fn links_in_spans(v: Seq<LinkView>, sps: Seq<(int, int, int)>, ls: Seq<Seq<char>>) -> bool {
    forall|t: int|
        0 <= t < v.len() ==> link_follows_rules(#[trigger] v[t]) && link_in_spans(v[t], sps, ls)
}

proof fn lemma_spans_concat(
    a: Seq<LinkView>,
    b: Seq<LinkView>,
    p: Seq<(int, int, int)>,
    q: Seq<(int, int, int)>,
    ls: Seq<Seq<char>>,
)
    requires
        links_in_spans(a, p, ls),
        links_in_spans(b, q, ls),
    ensures
        links_in_spans(a + b, p + q, ls),
{
    let v = a + b;
    let w = p + q;
    assert forall|t: int| 0 <= t < v.len() implies link_follows_rules(#[trigger] v[t])
        && link_in_spans(v[t], w, ls) by {
        if t < a.len() {
            assert(v[t] == a[t]);
            assert(link_in_spans(a[t], p, ls));
            let u = choose|u: int| 0 <= u < p.len() && link_in_span(a[t], #[trigger] p[u], ls);
            assert(w[u] == p[u]);
        } else {
            assert(v[t] == b[t - a.len()]);
            assert(link_in_spans(b[t - a.len()], q, ls));
            let u = choose|u: int|
                0 <= u < q.len() && link_in_span(b[t - a.len()], #[trigger] q[u], ls);
            assert(w[p.len() + u] == q[u]);
        }
    }
}

/// The stretches `pend` of lines `first..` hold the pieces of a block; the
/// first starts `lead` bytes into its line, the others at the line start.
pub open spec fn pieces_at(
    ls: Seq<Seq<char>>,
    pieces: Seq<Seq<char>>,
    pend: Seq<(int, int, int)>,
    first: int,
    lead: nat,
) -> bool {
    &&& pieces.len() == pend.len()
    &&& pieces.len() >= 1
    &&& 0 <= first
    &&& first + pieces.len() <= ls.len()
    &&& forall|k: int|
        0 <= k < pend.len() ==> {
            &&& (#[trigger] pend[k]).0 == first + k
            &&& 0 <= pend[k].1 <= pend[k].2 <= ls[first + k].len()
            &&& pieces[k] == ls[first + k].subrange(pend[k].1, pend[k].2)
            &&& k > 0 ==> pend[k].1 == 0
        }
    &&& lead == utf8_len(ls[first].take(pend[0].1))
}

#[verifier::spinoff_prover]
#[verifier::rlimit(40)]
proof fn lemma_pieces_cover(
    ls: Seq<Seq<char>>,
    pieces: Seq<Seq<char>>,
    pend: Seq<(int, int, int)>,
    first: int,
    lead: nat,
)
    requires
        forall|k: int| 0 <= k < ls.len() ==> no_newline(#[trigger] ls[k]),
        ls.len() <= u32::MAX,
        pieces_at(ls, pieces, pend, first, lead),
    ensures
        links_in_spans(shift_lines(text_links(join_lines(pieces)), first, lead), pend, ls),
{
    assert forall|k: int, j: int| 0 <= k < pieces.len() && 0 <= j < pieces[k].len() implies #[trigger] pieces[k][j]
        != '\n' by {
        assert(pend[k].0 == first + k);
        assert(pieces[k][j] == ls[first + k][pend[k].1 + j]);
        assert(no_newline(ls[first + k]));
    }
    lemma_lines_join(pieces);
    let jl = joined_lines(pieces);
    let m = pieces.len() as int;
    assert(jl.len() <= m);
    assert forall|k: int| 0 <= k < jl.len() implies (#[trigger] jl[k]) == pieces[k].take(jl[k].len() as int)
        && jl[k].len() <= pieces[k].len() by {
        if k < m - 1 {
            assert(jl[k] == strip_cr(pieces[k]));
            assert(strip_cr(pieces[k]) =~= pieces[k].take(strip_cr(pieces[k]).len() as int));
        } else {
            assert(jl[k] == pieces[k]);
            assert(pieces[k] =~= pieces[k].take(pieces[k].len() as int));
        }
    }
    assert forall|k: int| 0 <= k < jl.len() implies no_newline(#[trigger] jl[k]) by {
        assert forall|j: int| 0 <= j < jl[k].len() implies #[trigger] jl[k][j] != '\n' by {
            assert(jl[k][j] == pieces[k][j]);
        }
    }
    lemma_links_of_lines_rules(jl);
    let y = links_of_lines(jl);
    let x = shift_lines(y, first, lead);
    assert forall|t: int| 0 <= t < x.len() implies link_follows_rules(#[trigger] x[t]) && link_in_spans(
        x[t],
        pend,
        ls,
    ) by {
        let l = y[t];
        assert(link_in_lines(l, jl));
        let k = l.line - 1;
        let (j, c) = choose|j: int, c: int|
            #[trigger] link_at(jl[k], j, c) && l.col == utf8_len(jl[k].take(j));
        let sp = pend[k];
        let lo = sp.1;
        let row = ls[first + k];
        assert(sp.0 == first + k);
        assert(pieces[k] == row.subrange(lo, sp.2));
        assert(jl[k][j] == row[lo + j]);
        assert(jl[k][j + 1] == row[lo + j + 1]);
        assert(jl[k][c] == row[lo + c]);
        assert(jl[k][c + 1] == row[lo + c + 1]);
        assert(link_at(row, lo + j, lo + c));
        if k == 0 {
            lemma_utf8_len_subrange(row, lo, lo + j);
            assert(jl[k].take(j) =~= row.subrange(lo, lo + j));
            assert(row.take(lo + j) =~= row.subrange(0, lo + j));
            assert(row.take(lo) =~= row.subrange(0, lo));
        } else {
            assert(lo == 0);
            assert(jl[k].take(j) =~= row.take(j));
        }
        assert(x[t].line == first + k + 1);
        assert(link_in_span(x[t], sp, ls));
        assert(link_in_spans(x[t], pend, ls));
    }
}

#[verifier::spinoff_prover]
#[verifier::rlimit(40)]
proof fn lemma_block_cover(
    ls: Seq<Seq<char>>,
    open: Seq<char>,
    close: Seq<char>,
    i: int,
    in_block: bool,
    pieces: Seq<Seq<char>>,
    first: int,
    lead: nat,
    pend: Seq<(int, int, int)>,
)
    requires
        forall|k: int| 0 <= k < ls.len() ==> no_newline(#[trigger] ls[k]),
        ls.len() <= u32::MAX,
        0 <= i <= ls.len(),
        in_block ==> pieces_at(ls, pieces, pend, first, lead) && first + pieces.len() == i,
    ensures
        links_in_spans(
            block_links(ls, open, close, i, in_block, pieces, first, lead),
            block_spans(ls, open, close, i, in_block, pend),
            ls,
        ),
    decreases ls.len() - i,
{
    if i >= ls.len() {
        assert(links_in_spans(seq![], seq![], ls));
    } else {
        let line = ls[i];
        if in_block {
            match find(line, close) {
                Some(p) => {
                    lemma_find_from(line, close, 0);
                    let pc = pieces.push(line.take(p));
                    let pd = pend.push((i, 0, p));
                    assert(line.take(p) =~= ls[i].subrange(0, p));
                    assert(pieces_at(ls, pc, pd, first, lead)) by {
                        assert forall|k: int| 0 <= k < pd.len() implies {
                            &&& (#[trigger] pd[k]).0 == first + k
                            &&& 0 <= pd[k].1 <= pd[k].2 <= ls[first + k].len()
                            &&& pc[k] == ls[first + k].subrange(pd[k].1, pd[k].2)
                            &&& k > 0 ==> pd[k].1 == 0
                        } by {
                            if k < pend.len() {
                                assert(pd[k] == pend[k]);
                                assert(pc[k] == pieces[k]);
                            }
                        }
                    }
                    lemma_pieces_cover(ls, pc, pd, first, lead);
                    lemma_block_cover(ls, open, close, i + 1, false, seq![], 0, 0, seq![]);
                    lemma_spans_concat(
                        shift_lines(text_links(join_lines(pc)), first, lead),
                        block_links(ls, open, close, i + 1, false, seq![], 0, 0),
                        pd,
                        block_spans(ls, open, close, i + 1, false, seq![]),
                        ls,
                    );
                },
                None => {
                    let pc = pieces.push(line);
                    let pd = pend.push((i, 0, line.len() as int));
                    assert(line =~= ls[i].subrange(0, line.len() as int));
                    assert(pieces_at(ls, pc, pd, first, lead)) by {
                        assert forall|k: int| 0 <= k < pd.len() implies {
                            &&& (#[trigger] pd[k]).0 == first + k
                            &&& 0 <= pd[k].1 <= pd[k].2 <= ls[first + k].len()
                            &&& pc[k] == ls[first + k].subrange(pd[k].1, pd[k].2)
                            &&& k > 0 ==> pd[k].1 == 0
                        } by {
                            if k < pend.len() {
                                assert(pd[k] == pend[k]);
                                assert(pc[k] == pieces[k]);
                            }
                        }
                    }
                    lemma_block_cover(ls, open, close, i + 1, true, pc, first, lead, pd);
                },
            }
        } else {
            match find(line, open) {
                Some(p) => {
                    lemma_find_from(line, open, 0);
                    let a = p + open.len();
                    let after = line.skip(a);
                    let at = utf8_len(line.take(p)) + utf8_len(open);
                    assert(at == utf8_len(ls[i].take(a))) by {
                        lemma_utf8_len_subrange(line, p, a);
                        assert(line.subrange(p, a) == open);
                        assert(line.take(a) =~= line.subrange(0, a));
                        assert(line.take(p) =~= line.subrange(0, p));
                    }
                    assert(after =~= ls[i].subrange(a, line.len() as int));
                    match find(after, close) {
                        Some(q) => {
                            lemma_find_from(after, close, 0);
                            let t = after.take(q);
                            let pc = seq![t];
                            let pd = seq![(i, a, a + q)];
                            assert(t =~= ls[i].subrange(a, a + q));
                            assert(pieces_at(ls, pc, pd, i, at));
                            lemma_pieces_cover(ls, pc, pd, i, at);
                            assert(join_lines(pc) == t);
                            assert(no_newline(t)) by {
                                assert forall|x: int| 0 <= x < t.len() implies #[trigger] t[x] != '\n' by {
                                    assert(t[x] == line[a + x]);
                                }
                            }
                            lemma_text_links_single(t);
                            lemma_scan_lines(t, 1, 0, 0);
                            assert(relabel_all(text_links(t), (i + 1) as u32, at) =~= shift_lines(
                                text_links(join_lines(pc)),
                                i,
                                at,
                            ));
                            lemma_block_cover(ls, open, close, i + 1, false, seq![], 0, 0, seq![]);
                            lemma_spans_concat(
                                relabel_all(text_links(t), (i + 1) as u32, at),
                                block_links(ls, open, close, i + 1, false, seq![], 0, 0),
                                pd,
                                block_spans(ls, open, close, i + 1, false, seq![]),
                                ls,
                            );
                        },
                        None => {
                            let pc = seq![after];
                            let pd = seq![(i, a, line.len() as int)];
                            assert(pieces_at(ls, pc, pd, i, at));
                            lemma_block_cover(ls, open, close, i + 1, true, pc, i, at, pd);
                        },
                    }
                },
                None => {
                    lemma_block_cover(ls, open, close, i + 1, false, seq![], 0, 0, seq![]);
                },
            }
        }
    }
}

/// Links in code files are taken from block comments only: every link that
/// `extract_links_from_block_comments` finds obeys the link rules and stands,
/// from its `[[` to its `]]`, inside a stretch that a block comment covers
/// (after an `open` and before the next `close`), on the line it names; its
/// column is the byte offset of its `[[` in that line. (Line numbers are
/// `u32`: the law is stated for texts of at most `u32::MAX` lines.)
pub proof fn law_block_links_inside_blocks(text: Seq<char>, open: Seq<char>, close: Seq<char>)
    requires
        lines(text).len() <= u32::MAX,
    ensures
        links_in_spans(
            block_links(lines(text), open, close, 0, false, seq![], 0, 0),
            block_spans(lines(text), open, close, 0, false, seq![]),
            lines(text),
        ),
{
    lemma_lines_no_newline(text);
    let ls = lines(text);
    assert forall|k: int| 0 <= k < ls.len() implies no_newline(#[trigger] ls[k]) by {
        assert forall|j: int| 0 <= j < ls[k].len() implies #[trigger] ls[k][j] != '\n' by {
            assert(ls[k][j] != '\n');
        }
    }
    lemma_block_cover(ls, open, close, 0, false, seq![], 0, 0, seq![]);
}

/// The links of the lines `ls` found one line at a time: the links of each
/// line, read as a text of its own, numbered with that line.
pub open spec fn per_line_links(ls: Seq<Seq<char>>) -> Seq<LinkView>
    decreases ls.len(),
{
    if ls.len() == 0 {
        seq![]
    } else {
        per_line_links(ls.drop_last()) + relabel_all(text_links(ls.last()), ls.len() as u32, 0)
    }
}

proof fn lemma_per_line(ls: Seq<Seq<char>>)
    requires
        forall|k: int| 0 <= k < ls.len() ==> no_newline(#[trigger] ls[k]),
    ensures
        links_of_lines(ls) == per_line_links(ls),
    decreases ls.len(),
{
    if ls.len() > 0 {
        lemma_per_line(ls.drop_last());
        let t = ls.last();
        assert(no_newline(ls[ls.len() - 1]));
        lemma_shift_single(t, ls.len() as u32);
    }
}

/// Links cannot span lines: the links of a text are those of its lines,
/// each line scanned on its own, taken in order, and numbered with the
/// line they stand on.
pub proof fn law_links_line_by_line(text: Seq<char>)
    ensures
        text_links(text) == per_line_links(lines(text)),
{
    lemma_lines_no_newline(text);
    let ls = lines(text);
    assert forall|k: int| 0 <= k < ls.len() implies no_newline(#[trigger] ls[k]) by {
        assert forall|j: int| 0 <= j < ls[k].len() implies #[trigger] ls[k][j] != '\n' by {
            assert(ls[k][j] != '\n');
        }
    }
    lemma_per_line(ls);
}

} // verus!
