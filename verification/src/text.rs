//! Character-sequence model of the text the extractors read.
//!
//! Every `&str` the library reads is turned into a `Vec<char>` whose view is
//! the string's view; the scanners work on indices into that sequence. This
//! module states, over `Seq<char>`, what `str::lines`, `str::trim`,
//! `str::find` and byte offsets mean, and implements them on indices.

use vstd::prelude::*;
use vstd::utf8::encode_utf8;
use vstd::utf8::encode_scalar;

verus! {

/// `String::push`, which appends the character to the end of the string:
/// trusted to extend the string's character sequence by exactly it.
pub assume_specification[ String::push ](s: &mut String, ch: char)
    ensures
        final(s)@ == old(s)@.push(ch),
;

// ---------------------------------------------------------------------------
// Whitespace and trimming

/// `char::is_whitespace`: the Unicode `White_Space` property.
pub open spec fn is_white(c: char) -> bool {
    let u = c as u32;
    ||| 0x09 <= u <= 0x0D
    ||| u == 0x20
    ||| u == 0x85
    ||| u == 0xA0
    ||| u == 0x1680
    ||| 0x2000 <= u <= 0x200A
    ||| u == 0x2028
    ||| u == 0x2029
    ||| u == 0x202F
    ||| u == 0x205F
    ||| u == 0x3000
}

/// `str::trim_start`.
pub open spec fn trim_start(s: Seq<char>) -> Seq<char>
    decreases s.len(),
{
    if s.len() > 0 && is_white(s[0]) {
        trim_start(s.drop_first())
    } else {
        s
    }
}

/// `str::trim_end`.
pub open spec fn trim_end(s: Seq<char>) -> Seq<char>
    decreases s.len(),
{
    if s.len() > 0 && is_white(s.last()) {
        trim_end(s.drop_last())
    } else {
        s
    }
}

/// `str::trim`.
pub open spec fn trim(s: Seq<char>) -> Seq<char> {
    trim_end(trim_start(s))
}

/// No character of `s` is a newline.
pub open spec fn no_newline(s: Seq<char>) -> bool {
    forall|i: int| 0 <= i < s.len() ==> #[trigger] s[i] != '\n'
}

proof fn lemma_trim_start_props(s: Seq<char>)
    ensures
        no_newline(s) ==> no_newline(trim_start(s)),
        trim_start(s).len() > 0 ==> !is_white(trim_start(s)[0]),
    decreases s.len(),
{
    if s.len() > 0 && is_white(s[0]) {
        let u = s.drop_first();
        lemma_trim_start_props(u);
        if no_newline(s) {
            assert forall|i: int| 0 <= i < u.len() implies #[trigger] u[i] != '\n' by {
                assert(u[i] == s[i + 1]);
            }
        }
    }
}

proof fn lemma_trim_end_props(s: Seq<char>)
    ensures
        no_newline(s) ==> no_newline(trim_end(s)),
        trim_end(s).len() > 0 ==> !is_white(trim_end(s).last()),
        trim_end(s).len() <= s.len(),
        trim_end(s) == s.take(trim_end(s).len() as int),
    decreases s.len(),
{
    if s.len() > 0 && is_white(s.last()) {
        let u = s.drop_last();
        lemma_trim_end_props(u);
        if no_newline(s) {
            assert forall|i: int| 0 <= i < u.len() implies #[trigger] u[i] != '\n' by {
                assert(u[i] == s[i]);
            }
        }
        assert(u.take(trim_end(u).len() as int) =~= s.take(trim_end(u).len() as int));
    } else {
        assert(s.take(s.len() as int) =~= s);
    }
}

proof fn lemma_trim_start_skip(s: Seq<char>) -> (k: int)
    ensures
        0 <= k <= s.len(),
        trim_start(s) == s.skip(k),
    decreases s.len(),
{
    if s.len() > 0 && is_white(s[0]) {
        let k = lemma_trim_start_skip(s.drop_first());
        assert(s.drop_first().skip(k) =~= s.skip(k + 1));
        k + 1
    } else {
        assert(s.skip(0) =~= s);
        0
    }
}

/// Trimmed text is a piece of the text: `trim(s) == s[a..b]`.
pub proof fn lemma_trim_window(s: Seq<char>) -> (r: (int, int))
    ensures
        0 <= r.0 <= r.1 <= s.len(),
        trim(s) == s.subrange(r.0, r.1),
{
    let k = lemma_trim_start_skip(s);
    let y = s.skip(k);
    lemma_trim_end_props(y);
    let m = trim_end(y).len() as int;
    assert(y.take(m) =~= s.subrange(k, k + m));
    (k, k + m)
}

/// Trimmed text has no white space at either end, and keeps having no
/// newline.
pub proof fn lemma_trim_props(s: Seq<char>)
    ensures
        trim(trim(s)) == trim(s),
        no_newline(s) ==> no_newline(trim(s)),
        trim(s).len() > 0 ==> !is_white(trim(s)[0]) && !is_white(trim(s).last()),
{
    let y = trim_start(s);
    lemma_trim_start_props(s);
    lemma_trim_end_props(y);
    let z = trim_end(y);
    if z.len() > 0 {
        assert(z[0] == y[0]);
        assert(trim_start(z) == z);
        assert(trim_end(z) == z);
    } else {
        assert(trim_start(z) == z);
        assert(trim_end(z) == z);
    }
}

/// `str::trim_start_matches(c)` for a single character `c`.
pub open spec fn trim_start_char(s: Seq<char>, c: char) -> Seq<char>
    decreases s.len(),
{
    if s.len() > 0 && s[0] == c {
        trim_start_char(s.drop_first(), c)
    } else {
        s
    }
}

/// Whether `c` is a Unicode white-space character.
pub fn is_white_char(c: char) -> (r: bool)
    ensures
        r == is_white(c),
{
    let u = c as u32;
    (0x09 <= u && u <= 0x0D) || u == 0x20 || u == 0x85 || u == 0xA0 || u == 0x1680 || (0x2000
        <= u && u <= 0x200A) || u == 0x2028 || u == 0x2029 || u == 0x202F || u == 0x205F || u
        == 0x3000
}

proof fn lemma_trim_start_at(t: Seq<char>, k: int)
    requires
        0 <= k <= t.len(),
        forall|i: int| 0 <= i < k ==> is_white(#[trigger] t[i]),
        k == t.len() || !is_white(t[k]),
    ensures
        trim_start(t) == t.skip(k),
    decreases k,
{
    if k == 0 {
        assert(t.skip(0) =~= t);
    } else {
        let u = t.drop_first();
        assert forall|i: int| 0 <= i < k - 1 implies is_white(#[trigger] u[i]) by {
            assert(u[i] == t[i + 1]);
        }
        lemma_trim_start_at(u, k - 1);
        assert(u.skip(k - 1) =~= t.skip(k));
    }
}

proof fn lemma_trim_end_at(t: Seq<char>, k: int)
    requires
        0 <= k <= t.len(),
        forall|i: int| k <= i < t.len() ==> is_white(#[trigger] t[i]),
        k == 0 || !is_white(t[k - 1]),
    ensures
        trim_end(t) == t.take(k),
    decreases t.len() - k,
{
    if k == t.len() {
        assert(t.take(k) =~= t);
    } else {
        let u = t.drop_last();
        assert forall|i: int| k <= i < u.len() implies is_white(#[trigger] u[i]) by {
            assert(u[i] == t[i]);
        }
        lemma_trim_end_at(u, k);
        assert(u.take(k) =~= t.take(k));
    }
}

proof fn lemma_trim_start_char_at(t: Seq<char>, c: char, k: int)
    requires
        0 <= k <= t.len(),
        forall|i: int| 0 <= i < k ==> #[trigger] t[i] == c,
        k == t.len() || t[k] != c,
    ensures
        trim_start_char(t, c) == t.skip(k),
    decreases k,
{
    if k == 0 {
        assert(t.skip(0) =~= t);
    } else {
        let u = t.drop_first();
        assert forall|i: int| 0 <= i < k - 1 implies #[trigger] u[i] == c by {
            assert(u[i] == t[i + 1]);
        }
        lemma_trim_start_char_at(u, c, k - 1);
        assert(u.skip(k - 1) =~= t.skip(k));
    }
}

/// The bounds of `trim(s[lo..hi])` inside `s`.
pub fn trim_range(s: &[char], lo: usize, hi: usize) -> (r: (usize, usize))
    requires
        lo <= hi <= s@.len(),
    ensures
        lo <= r.0 <= r.1 <= hi,
        s@.subrange(r.0 as int, r.1 as int) == trim(s@.subrange(lo as int, hi as int)),
{
    let a = trim_start_range(s, lo, hi);
    let b = trim_end_range(s, a, hi);
    proof {
        let t = s@.subrange(lo as int, hi as int);
        assert(trim_start(t) =~= s@.subrange(a as int, hi as int));
    }
    (a, b)
}

/// The start of `trim_start(s[lo..hi])` inside `s`.
pub fn trim_start_range(s: &[char], lo: usize, hi: usize) -> (r: usize)
    requires
        lo <= hi <= s@.len(),
    ensures
        lo <= r <= hi,
        s@.subrange(r as int, hi as int) == trim_start(s@.subrange(lo as int, hi as int)),
{
    let mut i = lo;
    while i < hi && is_white_char(s[i])
        invariant
            lo <= i <= hi <= s@.len(),
            forall|j: int| lo <= j < i ==> is_white(#[trigger] s@[j]),
        decreases hi - i,
    {
        i = i + 1;
    }
    proof {
        let t = s@.subrange(lo as int, hi as int);
        assert forall|j: int| 0 <= j < i - lo implies is_white(#[trigger] t[j]) by {
            assert(t[j] == s@[lo + j]);
        }
        lemma_trim_start_at(t, i - lo);
        assert(t.skip(i - lo) =~= s@.subrange(i as int, hi as int));
    }
    i
}

/// The end of `trim_end(s[lo..hi])` inside `s`.
pub fn trim_end_range(s: &[char], lo: usize, hi: usize) -> (r: usize)
    requires
        lo <= hi <= s@.len(),
    ensures
        lo <= r <= hi,
        s@.subrange(lo as int, r as int) == trim_end(s@.subrange(lo as int, hi as int)),
{
    let mut j = hi;
    while j > lo && is_white_char(s[j - 1])
        invariant
            lo <= j <= hi <= s@.len(),
            forall|k: int| j <= k < hi ==> is_white(#[trigger] s@[k]),
        decreases j - lo,
    {
        j = j - 1;
    }
    proof {
        let t = s@.subrange(lo as int, hi as int);
        assert forall|k: int| j - lo <= k < t.len() implies is_white(#[trigger] t[k]) by {
            assert(t[k] == s@[lo + k]);
        }
        lemma_trim_end_at(t, j - lo);
        assert(t.take(j - lo) =~= s@.subrange(lo as int, j as int));
    }
    j
}

/// The start of `s[lo..hi].trim_start_matches(c)` inside `s`.
pub fn trim_start_char_range(s: &[char], lo: usize, hi: usize, c: char) -> (r: usize)
    requires
        lo <= hi <= s@.len(),
    ensures
        lo <= r <= hi,
        s@.subrange(r as int, hi as int) == trim_start_char(s@.subrange(lo as int, hi as int), c),
{
    let mut i = lo;
    while i < hi && s[i] == c
        invariant
            lo <= i <= hi <= s@.len(),
            forall|j: int| lo <= j < i ==> #[trigger] s@[j] == c,
        decreases hi - i,
    {
        i = i + 1;
    }
    proof {
        let t = s@.subrange(lo as int, hi as int);
        assert forall|j: int| 0 <= j < i - lo implies #[trigger] t[j] == c by {
            assert(t[j] == s@[lo + j]);
        }
        lemma_trim_start_char_at(t, c, i - lo);
        assert(t.skip(i - lo) =~= s@.subrange(i as int, hi as int));
    }
    i
}

// ---------------------------------------------------------------------------
// Lines

/// The index of the first `'\n'` in `s`, or `s.len()` when there is none.
pub open spec fn first_newline(s: Seq<char>) -> nat
    decreases s.len(),
{
    if s.len() == 0 {
        0
    } else if s[0] == '\n' {
        0
    } else {
        1 + first_newline(s.drop_first())
    }
}

/// A line without its `'\r'`, when the `'\r'` stood right before the `'\n'`.
pub open spec fn strip_cr(t: Seq<char>) -> Seq<char> {
    if t.len() > 0 && t.last() == '\r' {
        t.drop_last()
    } else {
        t
    }
}

/// `str::lines`: the pieces between `'\n'`s, each without a `'\r'` that
/// stood before its `'\n'`; a final `'\n'` starts no further line.
pub open spec fn lines(s: Seq<char>) -> Seq<Seq<char>>
    decreases s.len(),
{
    if s.len() == 0 {
        seq![]
    } else {
        let k = first_newline(s) as int;
        if k >= s.len() {
            seq![s]
        } else {
            seq![strip_cr(s.take(k))] + lines(s.skip(k + 1))
        }
    }
}

pub proof fn lemma_first_newline_at(s: Seq<char>, k: int)
    requires
        0 <= k <= s.len(),
        forall|i: int| 0 <= i < k ==> #[trigger] s[i] != '\n',
        k == s.len() || s[k] == '\n',
    ensures
        first_newline(s) == k,
    decreases k,
{
    if k > 0 {
        let u = s.drop_first();
        assert forall|i: int| 0 <= i < k - 1 implies #[trigger] u[i] != '\n' by {
            assert(u[i] == s[i + 1]);
        }
        lemma_first_newline_at(u, k - 1);
    }
}

/// The characters before the first `'\n'` are no `'\n'`.
pub proof fn lemma_first_newline(s: Seq<char>)
    ensures
        first_newline(s) <= s.len(),
        forall|i: int| 0 <= i < first_newline(s) ==> #[trigger] s[i] != '\n',
        first_newline(s) < s.len() ==> s[first_newline(s) as int] == '\n',
    decreases s.len(),
{
    if s.len() > 0 && s[0] != '\n' {
        let u = s.drop_first();
        lemma_first_newline(u);
        assert forall|i: int| 0 <= i < first_newline(s) implies #[trigger] s[i] != '\n' by {
            if i > 0 {
                assert(s[i] == u[i - 1]);
            }
        }
    }
}

/// No line holds a `'\n'`.
pub proof fn lemma_lines_no_newline(s: Seq<char>)
    ensures
        forall|i: int, j: int|
            0 <= i < lines(s).len() && 0 <= j < lines(s)[i].len() ==> #[trigger] lines(s)[i][j]
                != '\n',
    decreases s.len(),
{
    if s.len() > 0 {
        let k = first_newline(s) as int;
        lemma_first_newline(s);
        if k < s.len() {
            let rest = s.skip(k + 1);
            lemma_lines_no_newline(rest);
            let first = strip_cr(s.take(k));
            assert forall|i: int, j: int|
                0 <= i < lines(s).len() && 0 <= j < lines(s)[i].len() implies #[trigger] lines(
                s,
            )[i][j] != '\n' by {
                if i == 0 {
                    assert(lines(s)[0] == first);
                    assert(first[j] == s[j]);
                } else {
                    assert(lines(s)[i] == lines(rest)[i - 1]);
                }
            }
        }
    }
}

/// A text without `'\n'` is one line, or none when it is empty.
pub proof fn lemma_lines_single(t: Seq<char>)
    requires
        forall|j: int| 0 <= j < t.len() ==> #[trigger] t[j] != '\n',
    ensures
        lines(t) == (if t.len() == 0 {
            Seq::<Seq<char>>::empty()
        } else {
            seq![t]
        }),
{
    if t.len() > 0 {
        lemma_first_newline_at(t, t.len() as int);
    } else {
        assert(lines(t) =~= Seq::<Seq<char>>::empty());
    }
}

/// The pieces joined with `'\n'` between them.
pub open spec fn join_lines(p: Seq<Seq<char>>) -> Seq<char>
    decreases p.len(),
{
    if p.len() == 0 {
        seq![]
    } else if p.len() == 1 {
        p[0]
    } else {
        p[0] + seq!['\n'] + join_lines(p.drop_first())
    }
}

/// The lines of `join_lines(p)`, when no piece holds a `'\n'`: each piece but
/// the last loses the `'\r'` before its `'\n'`; an empty last piece is no line.
pub open spec fn joined_lines(p: Seq<Seq<char>>) -> Seq<Seq<char>> {
    if p.len() == 0 {
        seq![]
    } else {
        let init = p.drop_last().map_values(|t: Seq<char>| strip_cr(t));
        if p.last().len() == 0 {
            init
        } else {
            init.push(p.last())
        }
    }
}

pub proof fn lemma_lines_join(p: Seq<Seq<char>>)
    requires
        forall|k: int, j: int|
            0 <= k < p.len() && 0 <= j < p[k].len() ==> #[trigger] p[k][j] != '\n',
    ensures
        lines(join_lines(p)) == joined_lines(p),
    decreases p.len(),
{
    if p.len() == 0 {
        assert(lines(join_lines(p)) =~= joined_lines(p));
    } else if p.len() == 1 {
        lemma_lines_single(p[0]);
        assert(p.drop_last().map_values(|t: Seq<char>| strip_cr(t)) =~= Seq::<Seq<char>>::empty());
        if p[0].len() == 0 {
            assert(lines(join_lines(p)) =~= joined_lines(p));
        } else {
            assert(joined_lines(p) =~= seq![p[0]]);
        }
    } else {
        let q = p.drop_first();
        assert forall|k: int, j: int| 0 <= k < q.len() && 0 <= j < q[k].len() implies #[trigger] q[k][j]
            != '\n' by {
            assert(q[k] == p[k + 1]);
        }
        lemma_lines_join(q);
        let a = p[0];
        let s = a + seq!['\n'] + join_lines(q);
        assert(join_lines(p) == s);
        assert forall|i: int| 0 <= i < a.len() implies #[trigger] s[i] != '\n' by {
            assert(s[i] == a[i]);
        }
        lemma_first_newline_at(s, a.len() as int);
        assert(s.take(a.len() as int) =~= a);
        assert(s.skip(a.len() as int + 1) =~= join_lines(q));
        assert(lines(s) == seq![strip_cr(a)] + lines(join_lines(q)));
        let f = |t: Seq<char>| strip_cr(t);
        assert(p.drop_last().map_values(f) =~= seq![strip_cr(a)] + q.drop_last().map_values(f));
        assert(q.last() == p.last());
        assert(joined_lines(p) =~= seq![strip_cr(a)] + joined_lines(q));
    }
}

/// A text holds no more lines than characters.
pub proof fn lemma_lines_len(s: Seq<char>)
    ensures
        lines(s).len() <= s.len(),
    decreases s.len(),
{
    if s.len() > 0 {
        let k = first_newline(s) as int;
        if k < s.len() {
            lemma_lines_len(s.skip(k + 1));
        }
    }
}

/// The character positions of the lines of `s`: `s[r[i].0..r[i].1]` is
/// line `i`, and `r[i].2` is where the next line begins.
pub fn line_spans(s: &[char]) -> (r: Vec<(usize, usize)>)
    ensures
        r@.len() == lines(s@).len(),
        forall|i: int|
            0 <= i < r@.len() ==> {
                &&& (#[trigger] r@[i]).0 <= r@[i].1 <= s@.len()
                &&& s@.subrange(r@[i].0 as int, r@[i].1 as int) == lines(s@)[i]
            },
        forall|i: int, j: int| 0 <= i < j < r@.len() ==> (#[trigger] r@[i]).1 <= (#[trigger] r@[j]).0,
{
    let mut r: Vec<(usize, usize)> = Vec::new();
    let mut pos: usize = 0;
    let len = s.len();
    let ghost mut done: Seq<Seq<char>> = seq![];
    proof {
        assert(s@.skip(0) =~= s@);
        assert(done + lines(s@.skip(0)) =~= lines(s@));
    }
    while pos < len
        invariant
            len == s@.len(),
            pos <= len,
            done.len() == r@.len(),
            lines(s@) == done + lines(s@.skip(pos as int)),
            forall|i: int|
                0 <= i < r@.len() ==> {
                    &&& (#[trigger] r@[i]).0 <= r@[i].1 <= s@.len()
                    &&& s@.subrange(r@[i].0 as int, r@[i].1 as int) == done[i]
                },
            forall|i: int| 0 <= i < r@.len() ==> (#[trigger] r@[i]).1 <= pos,
            forall|i: int, j: int|
                0 <= i < j < r@.len() ==> (#[trigger] r@[i]).1 <= (#[trigger] r@[j]).0,
        decreases len - pos,
    {
        let mut k = pos;
        while k < len && s[k] != '\n'
            invariant
                pos <= k <= len == s@.len(),
                forall|i: int| pos <= i < k ==> #[trigger] s@[i] != '\n',
            decreases len - k,
        {
            k = k + 1;
        }
        let ghost t = s@.skip(pos as int);
        proof {
            assert forall|i: int| 0 <= i < k - pos implies #[trigger] t[i] != '\n' by {
                assert(t[i] == s@[pos + i]);
            }
            lemma_first_newline_at(t, k - pos);
        }
        if k == len {
            proof {
                assert(t =~= s@.subrange(pos as int, len as int));
                assert(lines(t) == seq![t]);
                done = done.push(t);
            }
            r.push((pos, len));
            pos = len;
            proof {
                assert(lines(s@.skip(pos as int)) =~= seq![]);
                assert(lines(s@) =~= done + lines(s@.skip(pos as int)));
            }
        } else {
            let end = if k > pos && s[k - 1] == '\r' {
                k - 1
            } else {
                k
            };
            proof {
                let line = t.take(k - pos);
                assert(line =~= s@.subrange(pos as int, k as int));
                assert(strip_cr(line) =~= s@.subrange(pos as int, end as int));
                assert(t.skip(k - pos + 1) =~= s@.skip(k + 1));
                assert(lines(t) == seq![strip_cr(line)] + lines(s@.skip(k + 1)));
                done = done.push(strip_cr(line));
                assert(lines(s@) =~= done + lines(s@.skip(k + 1)));
            }
            r.push((pos, end));
            pos = k + 1;
        }
    }
    proof {
        assert(lines(s@.skip(pos as int)) =~= seq![]) by {
            assert(s@.skip(pos as int).len() == 0);
        }
        assert(lines(s@) =~= done);
    }
    r
}

// ---------------------------------------------------------------------------
// Searching

/// `pat` stands in `s` at index `i`.
pub open spec fn matches_at(s: Seq<char>, pat: Seq<char>, i: int) -> bool {
    0 <= i && i + pat.len() <= s.len() && s.subrange(i, i + pat.len()) == pat
}

/// The first index `>= i` at which `pat` stands in `s`.
pub open spec fn find_from(s: Seq<char>, pat: Seq<char>, i: int) -> Option<int>
    decreases s.len() + 1 - i,
{
    if i < 0 || i + pat.len() > s.len() {
        None
    } else if matches_at(s, pat, i) {
        Some(i)
    } else {
        find_from(s, pat, i + 1)
    }
}

/// What `find_from` returns: the first match at or after `i`.
pub proof fn lemma_find_from(s: Seq<char>, pat: Seq<char>, i: int)
    requires
        0 <= i,
    ensures
        match find_from(s, pat, i) {
            Some(c) => i <= c && matches_at(s, pat, c) && forall|j: int|
                i <= j < c ==> !#[trigger] matches_at(s, pat, j),
            None => forall|j: int| i <= j ==> !#[trigger] matches_at(s, pat, j),
        },
    decreases s.len() + 1 - i,
{
    if i + pat.len() > s.len() {
    } else if matches_at(s, pat, i) {
    } else {
        lemma_find_from(s, pat, i + 1);
    }
}

/// `str::find`: the first index at which `pat` stands in `s`.
pub open spec fn find(s: Seq<char>, pat: Seq<char>) -> Option<int> {
    find_from(s, pat, 0)
}

/// `str::starts_with`.
pub open spec fn starts_with(s: Seq<char>, pat: Seq<char>) -> bool {
    pat.len() <= s.len() && s.take(pat.len() as int) == pat
}

/// `str::ends_with`.
pub open spec fn ends_with(s: Seq<char>, pat: Seq<char>) -> bool {
    pat.len() <= s.len() && s.skip(s.len() - pat.len()) == pat
}

/// Whether `pat` stands in `s` at index `i`.
pub fn matches_at_exec(s: &[char], i: usize, hi: usize, pat: &[char]) -> (r: bool)
    requires
        i <= hi <= s@.len(),
    ensures
        r == matches_at(s@.subrange(0, hi as int), pat@, i as int),
{
    let plen = pat.len();
    if plen > hi - i {
        return false;
    }
    let mut j: usize = 0;
    while j < plen
        invariant
            i + plen <= hi <= s@.len(),
            plen == pat@.len(),
            j <= plen,
            forall|k: int| 0 <= k < j ==> s@[i + k] == pat@[k],
        decreases plen - j,
    {
        if s[i + j] != pat[j] {
            proof {
                let t = s@.subrange(0, hi as int);
                assert(t.subrange(i as int, i + plen)[j as int] != pat@[j as int]);
            }
            return false;
        }
        j = j + 1;
    }
    proof {
        let t = s@.subrange(0, hi as int);
        assert(t.subrange(i as int, i + plen) =~= pat@);
    }
    true
}

/// The first index `k` in `lo..` with `pat` standing in `s[lo..hi]` at `k - lo`.
pub fn find_in(s: &[char], lo: usize, hi: usize, pat: &[char]) -> (r: Option<usize>)
    requires
        lo <= hi <= s@.len(),
    ensures
        match r {
            Some(k) => lo <= k <= hi && find(s@.subrange(lo as int, hi as int), pat@) == Some(
                (k - lo) as int,
            ),
            None => find(s@.subrange(lo as int, hi as int), pat@) is None,
        },
{
    let ghost t = s@.subrange(lo as int, hi as int);
    let mut i = lo;
    while i <= hi
        invariant
            lo <= i <= hi + 1,
            hi <= s@.len(),
            t == s@.subrange(lo as int, hi as int),
            find(t, pat@) == find_from(t, pat@, i - lo),
        decreases hi + 1 - i,
    {
        if pat.len() > hi - i {
            return None;
        }
        let m = matches_at_exec(s, i, hi, pat);
        proof {
            let u = s@.subrange(0, hi as int);
            if m {
                assert(t.subrange(i - lo, i - lo + pat@.len()) =~= u.subrange(
                    i as int,
                    i + pat@.len(),
                ));
            } else {
                assert(t.subrange(i - lo, i - lo + pat@.len()) =~= u.subrange(
                    i as int,
                    i + pat@.len(),
                ));
            }
        }
        if m {
            return Some(i);
        }
        if i == hi {
            proof {
                assert(find_from(t, pat@, i - lo + 1) is None);
            }
            return None;
        }
        i = i + 1;
    }
    None
}

// ---------------------------------------------------------------------------
// Byte offsets

/// The number of bytes of the UTF-8 encoding of `s`.
pub open spec fn utf8_len(s: Seq<char>) -> nat {
    encode_utf8(s).len()
}

pub proof fn lemma_encode_utf8_add(a: Seq<char>, b: Seq<char>)
    ensures
        encode_utf8(a + b) == encode_utf8(a) + encode_utf8(b),
    decreases a.len(),
{
    if a.len() == 0 {
        assert(a + b =~= b);
        assert(encode_utf8(a) =~= seq![]);
        assert(encode_utf8(a) + encode_utf8(b) =~= encode_utf8(b));
    } else {
        lemma_encode_utf8_add(a.drop_first(), b);
        assert((a + b).drop_first() =~= a.drop_first() + b);
        assert((a + b)[0] == a[0]);
    }
}

/// The bytes of a piece of a text are no more than those of the text.
pub proof fn lemma_utf8_len_subrange(s: Seq<char>, lo: int, hi: int)
    requires
        0 <= lo <= hi <= s.len(),
    ensures
        utf8_len(s.subrange(lo, hi)) <= utf8_len(s),
        utf8_len(s.subrange(0, hi)) == utf8_len(s.subrange(0, lo)) + utf8_len(
            s.subrange(lo, hi),
        ),
{
    lemma_encode_utf8_add(s.subrange(0, lo), s.subrange(lo, hi));
    assert(s.subrange(0, lo) + s.subrange(lo, hi) =~= s.subrange(0, hi));
    lemma_encode_utf8_add(s.subrange(0, hi), s.subrange(hi, s.len() as int));
    assert(s.subrange(0, hi) + s.subrange(hi, s.len() as int) =~= s);
}

/// Every character takes at least one byte: a longer prefix of a text has
/// a longer encoding.
pub proof fn lemma_utf8_len_take_increases(s: Seq<char>, i: int, j: int)
    requires
        0 <= i < j <= s.len(),
    ensures
        utf8_len(s.take(i)) < utf8_len(s.take(j)),
{
    lemma_utf8_len_subrange(s, i, j);
    let m = s.subrange(i, j);
    assert(m.len() > 0);
    assert(encode_utf8(m) == encode_scalar(m[0] as u32) + encode_utf8(m.drop_first()));
    assert(encode_scalar(m[0] as u32).len() >= 1);
    assert(s.take(i) =~= s.subrange(0, i));
    assert(s.take(j) =~= s.subrange(0, j));
}

/// The number of bytes of the UTF-8 encoding of `c`.
pub fn char_width(c: char) -> (r: usize)
    ensures
        r == encode_scalar(c as u32).len(),
        1 <= r <= 4,
{
    let u = c as u32;
    if u <= 0x7F {
        1
    } else if u <= 0x7FF {
        2
    } else if u <= 0xFFFF {
        proof {
            vstd::utf8::char_is_scalar(c);
        }
        3
    } else {
        proof {
            vstd::utf8::char_is_scalar(c);
        }
        4
    }
}

/// The number of bytes of the UTF-8 encoding of `s[lo..hi]`.
pub fn utf8_len_range(s: &[char], lo: usize, hi: usize) -> (r: usize)
    requires
        lo <= hi <= s@.len(),
        utf8_len(s@.subrange(lo as int, hi as int)) <= usize::MAX,
    ensures
        r == utf8_len(s@.subrange(lo as int, hi as int)),
{
    let ghost whole = s@.subrange(lo as int, hi as int);
    let mut n: usize = 0;
    let mut i = lo;
    proof {
        assert(s@.subrange(lo as int, lo as int) =~= Seq::<char>::empty());
        assert(encode_utf8(Seq::<char>::empty()) =~= Seq::<u8>::empty());
    }
    while i < hi
        invariant
            lo <= i <= hi <= s@.len(),
            whole == s@.subrange(lo as int, hi as int),
            utf8_len(whole) <= usize::MAX,
            n == utf8_len(s@.subrange(lo as int, i as int)),
        decreases hi - i,
    {
        let w = char_width(s[i]);
        proof {
            let a = s@.subrange(lo as int, i as int);
            let one = seq![s@[i as int]];
            lemma_encode_utf8_add(a, one);
            assert(a + one =~= s@.subrange(lo as int, i + 1));
            assert(one.drop_first() =~= Seq::<char>::empty());
            assert(encode_utf8(Seq::<char>::empty()) =~= Seq::<u8>::empty());
            assert(encode_utf8(one) =~= encode_scalar(s@[i as int] as u32) + encode_utf8(
                one.drop_first(),
            ));
            assert(encode_utf8(one) =~= encode_scalar(s@[i as int] as u32));
            lemma_utf8_len_subrange(whole, 0, i + 1 - lo);
            assert(whole.subrange(0, i + 1 - lo) =~= s@.subrange(lo as int, i + 1));
        }
        n = n + w;
        i = i + 1;
    }
    n
}

/// The number of bytes of the UTF-8 encoding of a `str` fits in `usize`.
pub fn chars_of(s: &str) -> (r: Vec<char>)
    ensures
        r@ == s@,
        utf8_len(s@) <= usize::MAX,
{
    let b = s.as_bytes();
    let _n = b.len();
    let mut r: Vec<char> = Vec::new();
    for c in it: s.chars()
        invariant
            r@ == it.seq().take(it.index() as int),
    {
        r.push(c);
    }
    r
}

/// A string holding the characters `s[lo..hi]`.
pub fn string_of(s: &[char], lo: usize, hi: usize) -> (r: String)
    requires
        lo <= hi <= s@.len(),
    ensures
        r@ == s@.subrange(lo as int, hi as int),
{
    let mut r = String::new();
    let mut i = lo;
    while i < hi
        invariant
            lo <= i <= hi <= s@.len(),
            r@ == s@.subrange(lo as int, i as int),
        decreases hi - i,
    {
        r.push(s[i]);
        proof {
            assert(s@.subrange(lo as int, i + 1) =~= s@.subrange(lo as int, i as int).push(
                s@[i as int],
            ));
        }
        i = i + 1;
    }
    r
}

/// A string holding the characters of a string literal.
pub fn string_lit(s: &str) -> (r: String)
    ensures
        r@ == s@,
{
    s.to_owned()
}

} // verus!
