//! The region parser: `@region <name>` / `@end <name>` markers in comments,
//! and the prose blocks (`<comment>|` lines) inside regions.
//!
//! Design rules enforced here: regions cannot nest (`NestedRegion`), and
//! region names are unique per file (`DuplicateRegion`). Prose blocks are
//! contiguous runs of prose lines; any other line breaks the run and the
//! next prose line starts a new block.

use vstd::prelude::*;
use crate::errors::LifeError;
use crate::text::{
    chars_of, is_white, is_white_char, join_lines, lemma_lines_len, line_spans, lines, matches_at,
    matches_at_exec,
    starts_with, string_of, trim, trim_range, trim_start_char, trim_start_char_range,
};
use crate::types::{NodePath, ProseBlock, ProseView, Region, RegionView, prose_view, regions_view};

verus! {

/// `@region`
pub open spec fn region_marker() -> Seq<char> {
    seq!['@', 'r', 'e', 'g', 'i', 'o', 'n']
}

/// `@end`
pub open spec fn end_marker() -> Seq<char> {
    seq!['@', 'e', 'n', 'd']
}

/// The name after `marker` in a comment body: the body is trimmed, must
/// start with `marker` followed by white space or the end of the body (so
/// `@regionfoo` is no marker), and the rest, trimmed, must not be empty.
pub open spec fn marker_name(body: Seq<char>, marker: Seq<char>) -> Option<Seq<char>> {
    let b = trim(body);
    if starts_with(b, marker) && (b.len() == marker.len() || is_white(b[marker.len() as int])) {
        let name = trim(b.skip(marker.len() as int));
        if name.len() > 0 {
            Some(name)
        } else {
            None
        }
    } else {
        None
    }
}

/// The text of a prose line: the body starts with `|`, and the text is what
/// follows, without the spaces right after the `|`.
pub open spec fn prose_text(body: Seq<char>) -> Option<Seq<char>> {
    if body.len() > 0 && body[0] == '|' {
        Some(trim_start_char(body.skip(1), ' '))
    } else {
        None
    }
}

/// `k` spaces.
pub open spec fn spaces(k: nat) -> Seq<char> {
    Seq::new(k, |i: int| ' ')
}

proof fn lemma_trim_spaces(k: nat, t: Seq<char>)
    requires
        t.len() == 0 || t[0] != ' ',
    ensures
        trim_start_char(spaces(k) + t, ' ') == t,
    decreases k,
{
    if k == 0 {
        assert(spaces(0) + t =~= t);
    } else {
        let u = spaces(k) + t;
        assert(u[0] == ' ');
        assert(u.drop_first() =~= spaces((k - 1) as nat) + t);
        lemma_trim_spaces((k - 1) as nat, t);
    }
}

/// A prose line's text is what follows its `|`, without the spaces right
/// after the `|` and nothing else taken away.
pub proof fn law_prose_text(k: nat, t: Seq<char>)
    requires
        t.len() == 0 || t[0] != ' ',
    ensures
        prose_text(seq!['|'] + spaces(k) + t) == Some(t),
{
    let b = seq!['|'] + spaces(k) + t;
    assert(b[0] == '|');
    assert(b.skip(1) =~= spaces(k) + t);
    lemma_trim_spaces(k, t);
}

/// What a line is to the region parser.
pub enum LineKind {
    Start(Seq<char>),
    End,
    Prose(Seq<char>),
    Other,
}

/// The kind of a line: a comment is a line that, trimmed, starts with the
/// comment prefix; its body is the rest, trimmed.
pub open spec fn line_kind(line: Seq<char>, prefix: Seq<char>) -> LineKind {
    let t = trim(line);
    if starts_with(t, prefix) {
        let body = trim(t.skip(prefix.len() as int));
        match marker_name(body, region_marker()) {
            Some(name) => LineKind::Start(name),
            None => match marker_name(body, end_marker()) {
                Some(_) => LineKind::End,
                None => match prose_text(body) {
                    Some(text) => LineKind::Prose(text),
                    None => LineKind::Other,
                },
            },
        }
    } else {
        LineKind::Other
    }
}

/// A region being read: its name, first line, finished prose blocks and the
/// prose block being read, if any.
pub struct OpenView {
    pub name: Seq<char>,
    pub start_line: u32,
    pub blocks: Seq<ProseView>,
    pub current: Option<ProseView>,
}

/// The parser's state: the regions read, the open region, the names seen.
pub struct ScanView {
    pub regions: Seq<RegionView>,
    pub open: Option<OpenView>,
    pub seen: Seq<Seq<char>>,
}

/// Why a file's regions are refused.
pub enum RegionError {
    Nested { outer: Seq<char>, inner: Seq<char> },
    Duplicate { name: Seq<char> },
}

/// The prose blocks of an open region once its current block is finished.
pub open spec fn flushed(o: OpenView) -> Seq<ProseView> {
    match o.current {
        Some(b) => o.blocks.push(b),
        None => o.blocks,
    }
}

/// The region an open region becomes when it ends at line `end`.
pub open spec fn closed_region(file: Seq<char>, o: OpenView, end: u32) -> RegionView {
    RegionView { file, name: o.name, start_line: o.start_line, end_line: end, prose: flushed(o) }
}

/// The parser's step on a line numbered `n`.
pub open spec fn region_step(file: Seq<char>, st: ScanView, kind: LineKind, n: u32) -> Result<
    ScanView,
    RegionError,
> {
    match kind {
        LineKind::Start(name) => match st.open {
            Some(o) => Err(RegionError::Nested { outer: o.name, inner: name }),
            None => if st.seen.contains(name) {
                Err(RegionError::Duplicate { name })
            } else {
                Ok(
                    ScanView {
                        regions: st.regions,
                        open: Some(
                            OpenView { name, start_line: n, blocks: seq![], current: None },
                        ),
                        seen: st.seen.push(name),
                    },
                )
            },
        },
        LineKind::End => match st.open {
            Some(o) => Ok(
                ScanView {
                    regions: st.regions.push(closed_region(file, o, n)),
                    open: None,
                    seen: st.seen,
                },
            ),
            None => Ok(st),
        },
        LineKind::Prose(text) => match st.open {
            Some(o) => Ok(
                ScanView {
                    regions: st.regions,
                    open: Some(
                        OpenView {
                            name: o.name,
                            start_line: o.start_line,
                            blocks: o.blocks,
                            current: Some(
                                match o.current {
                                    Some(b) => ProseView {
                                        start_line: b.start_line,
                                        content: b.content + seq!['\n'] + text,
                                    },
                                    None => ProseView { start_line: n, content: text },
                                },
                            ),
                        },
                    ),
                    seen: st.seen,
                },
            ),
            None => Ok(st),
        },
        LineKind::Other => match st.open {
            Some(o) => Ok(
                ScanView {
                    regions: st.regions,
                    open: Some(
                        OpenView {
                            name: o.name,
                            start_line: o.start_line,
                            blocks: flushed(o),
                            current: None,
                        },
                    ),
                    seen: st.seen,
                },
            ),
            None => Ok(st),
        },
    }
}

/// The parser run over the lines `ls[i..]` from state `st`; line `k` is
/// numbered `k + 1`.
pub open spec fn scan_regions(
    file: Seq<char>,
    ls: Seq<Seq<char>>,
    prefix: Seq<char>,
    i: int,
    st: ScanView,
) -> Result<ScanView, RegionError>
    decreases ls.len() - i,
{
    if i < 0 || i >= ls.len() {
        Ok(st)
    } else {
        match region_step(file, st, line_kind(ls[i], prefix), (i + 1) as u32) {
            Ok(next) => scan_regions(file, ls, prefix, i + 1, next),
            Err(e) => Err(e),
        }
    }
}

/// The state before the first line.
pub open spec fn initial_scan() -> ScanView {
    ScanView { regions: seq![], open: None, seen: seq![] }
}

/// The regions of a file: every line scanned, then a region left open is
/// closed at the last line of the file. Without a comment prefix (freetext)
/// there are no regions.
pub open spec fn file_regions(file: Seq<char>, content: Seq<char>, prefix: Option<Seq<char>>) -> Result<
    Seq<RegionView>,
    RegionError,
> {
    match prefix {
        None => Ok(seq![]),
        Some(p) => match scan_regions(file, lines(content), p, 0, initial_scan()) {
            Ok(st) => Ok(
                match st.open {
                    Some(o) => st.regions.push(
                        closed_region(file, o, lines(content).len() as u32),
                    ),
                    None => st.regions,
                },
            ),
            Err(e) => Err(e),
        },
    }
}

/// What `extract_regions` returns matches `file_regions`.
pub open spec fn regions_result_matches(
    r: Result<Vec<Region>, LifeError>,
    file: Seq<char>,
    expected: Result<Seq<RegionView>, RegionError>,
) -> bool {
    match (r, expected) {
        (Ok(v), Ok(rs)) => regions_view(v@) == rs,
        (
            Err(LifeError::NestedRegion { file: f, outer, inner }),
            Err(RegionError::Nested { outer: o, inner: i }),
        ) => f@ == file && outer@ == o && inner@ == i,
        (
            Err(LifeError::DuplicateRegion { file: f, name }),
            Err(RegionError::Duplicate { name: nm }),
        ) => f@ == file && name@ == nm,
        _ => false,
    }
}

// ---------------------------------------------------------------------------
// Executable parser

/// A region being read.
struct OpenRegion {
    name: String,
    start_line: u32,
    prose_blocks: Vec<ProseBlock>,
    current_prose: Option<ProseBlock>,
}

/// The view of an optional prose block.
pub open spec fn opt_prose(o: Option<ProseBlock>) -> Option<ProseView> {
    match o {
        Some(b) => Some(b@),
        None => None,
    }
}

impl OpenRegion {
    spec fn view(&self) -> OpenView {
        OpenView {
            name: self.name@,
            start_line: self.start_line,
            blocks: prose_view(self.prose_blocks@),
            current: opt_prose(self.current_prose),
        }
    }
}

spec fn opt_open(o: Option<OpenRegion>) -> Option<OpenView> {
    match o {
        Some(r) => Some(r.view()),
        None => None,
    }
}

spec fn names_view(v: Seq<String>) -> Seq<Seq<char>> {
    v.map_values(|s: String| s@)
}

/// Whether `s[lo..hi]` starts with `pat`.
fn starts_with_range(s: &[char], lo: usize, hi: usize, pat: &[char]) -> (r: bool)
    requires
        lo <= hi <= s@.len(),
    ensures
        r == starts_with(s@.subrange(lo as int, hi as int), pat@),
{
    let m = matches_at_exec(s, lo, hi, pat);
    proof {
        let t = s@.subrange(lo as int, hi as int);
        let u = s@.subrange(0, hi as int);
        if pat@.len() <= t.len() {
            assert(t.take(pat@.len() as int) =~= u.subrange(lo as int, lo + pat@.len()));
        }
    }
    m
}

/// The name after `marker` in the comment body `s[lo..hi]`, as a range.
fn marker_name_range(s: &[char], lo: usize, hi: usize, marker: &[char]) -> (r: Option<
    (usize, usize),
>)
    requires
        lo <= hi <= s@.len(),
    ensures
        match r {
            Some((a, b)) => a <= b <= s@.len() && marker_name(
                s@.subrange(lo as int, hi as int),
                marker@,
            ) == Some(s@.subrange(a as int, b as int)),
            None => marker_name(s@.subrange(lo as int, hi as int), marker@) is None,
        },
{
    let (c0, c1) = trim_range(s, lo, hi);
    if !starts_with_range(s, c0, c1, marker) {
        return None;
    }
    if c0 + marker.len() < c1 && !is_white_char(s[c0 + marker.len()]) {
        return None;
    }
    let (n0, n1) = trim_range(s, c0 + marker.len(), c1);
    proof {
        let b = s@.subrange(c0 as int, c1 as int);
        assert(b.skip(marker@.len() as int) =~= s@.subrange(c0 + marker@.len(), c1 as int));
    }
    if n0 < n1 {
        Some((n0, n1))
    } else {
        None
    }
}

/// What the line `s[lo..hi]` is, with the ranges of its name or prose text.
enum LineKindExec {
    Start(usize, usize),
    End,
    Prose(usize, usize),
    Other,
}

spec fn kind_view(s: Seq<char>, k: LineKindExec) -> LineKind {
    match k {
        LineKindExec::Start(a, b) => LineKind::Start(s.subrange(a as int, b as int)),
        LineKindExec::End => LineKind::End,
        LineKindExec::Prose(a, b) => LineKind::Prose(s.subrange(a as int, b as int)),
        LineKindExec::Other => LineKind::Other,
    }
}

spec fn kind_within(len: nat, k: LineKindExec) -> bool {
    match k {
        LineKindExec::Start(a, b) => a <= b <= len,
        LineKindExec::Prose(a, b) => a <= b <= len,
        _ => true,
    }
}

fn classify(
    s: &[char],
    lo: usize,
    hi: usize,
    prefix: &[char],
    region: &[char],
    end: &[char],
) -> (r: LineKindExec)
    requires
        lo <= hi <= s@.len(),
        region@ == region_marker(),
        end@ == end_marker(),
    ensures
        kind_within(s@.len(), r),
        kind_view(s@, r) == line_kind(s@.subrange(lo as int, hi as int), prefix@),
{
    let (t0, t1) = trim_range(s, lo, hi);
    if !starts_with_range(s, t0, t1, prefix) {
        return LineKindExec::Other;
    }
    let (b0, b1) = trim_range(s, t0 + prefix.len(), t1);
    proof {
        let t = s@.subrange(t0 as int, t1 as int);
        assert(t.skip(prefix@.len() as int) =~= s@.subrange(t0 + prefix@.len(), t1 as int));
    }
    match marker_name_range(s, b0, b1, region) {
        Some((a, b)) => {
            return LineKindExec::Start(a, b);
        },
        None => {},
    }
    match marker_name_range(s, b0, b1, end) {
        Some(_) => {
            return LineKindExec::End;
        },
        None => {},
    }
    if b0 < b1 && s[b0] == '|' {
        let p0 = trim_start_char_range(s, b0 + 1, b1, ' ');
        proof {
            let body = s@.subrange(b0 as int, b1 as int);
            assert(body.skip(1) =~= s@.subrange(b0 + 1, b1 as int));
        }
        LineKindExec::Prose(p0, b1)
    } else {
        LineKindExec::Other
    }
}

/// Whether `name` is among `seen`.
fn seen_contains(seen: &Vec<String>, name: &String) -> (r: bool)
    ensures
        r == names_view(seen@).contains(name@),
{
    let mut i: usize = 0;
    while i < seen.len()
        invariant
            i <= seen@.len(),
            forall|k: int| 0 <= k < i ==> seen@[k]@ != name@,
        decreases seen@.len() - i,
    {
        if seen[i] == *name {
            proof {
                assert(names_view(seen@)[i as int] == name@);
            }
            return true;
        }
        i = i + 1;
    }
    proof {
        if names_view(seen@).contains(name@) {
            let k = choose|k: int| 0 <= k < names_view(seen@).len() && names_view(seen@)[k] == name@;
            assert(seen@[k]@ == name@);
        }
    }
    false
}

/// The finished prose blocks of an open region.
fn flush(o: &mut OpenRegion)
    ensures
        final(o).view() == (OpenView {
            name: old(o).view().name,
            start_line: old(o).view().start_line,
            blocks: flushed(old(o).view()),
            current: None,
        }),
{
    let ghost before = o.view();
    match o.current_prose.take() {
        Some(b) => {
            o.prose_blocks.push(b);
            proof {
                assert(prose_view(o.prose_blocks@) =~= before.blocks.push(b@));
            }
        },
        None => {},
    }
}

fn file_clone(f: &NodePath) -> (r: NodePath)
    ensures
        r@ == f@,
{
    f.clone()
}

/// Extract regions and prose from file contents.
///
/// Scans for `@region <name>` and `@end <name>` markers in comments
/// (lines that, trimmed, start with `comment_prefix`). Within a region,
/// lines `<comment_prefix>|` are collected as prose blocks. A region left
/// open runs to the last line of the file; an `@end` outside a region is
/// ignored.
///
/// Errors: `@region` inside an open region (`NestedRegion`); a second
/// region with the same name (`DuplicateRegion`).
///
/// Without a comment prefix (freetext, markdown) there are no regions.
pub fn extract_regions(file_path: &NodePath, content: &str, comment_prefix: Option<&str>) -> (r:
    Result<Vec<Region>, LifeError>)
    ensures
        regions_result_matches(
            r,
            file_path@,
            file_regions(
                file_path@,
                content@,
                match comment_prefix {
                    Some(p) => Some(p@),
                    None => None,
                },
            ),
        ),
{
    let prefix_str = match comment_prefix {
        Some(p) => p,
        None => {
            let v: Vec<Region> = Vec::new();
            proof {
                assert(regions_view(v@) =~= seq![]);
            }
            return Ok(v);
        },
    };
    let s = chars_of(content);
    let prefix = chars_of(prefix_str);
    let region: Vec<char> = vec!['@', 'r', 'e', 'g', 'i', 'o', 'n'];
    let end: Vec<char> = vec!['@', 'e', 'n', 'd'];
    let spans = line_spans(s.as_slice());
    let ghost ls = lines(s@);
    let ghost file = file_path@;
    let ghost target = scan_regions(file, ls, prefix@, 0, initial_scan());
    let mut regions: Vec<Region> = Vec::new();
    let mut open: Option<OpenRegion> = None;
    let mut seen: Vec<String> = Vec::new();
    let mut i: usize = 0;
    proof {
        lemma_lines_len(s@);
        assert(region@ == region_marker());
        assert(end@ == end_marker());
        assert(regions_view(regions@) =~= seq![]);
        assert(names_view(seen@) =~= seq![]);
    }
    while i < spans.len()
        invariant
            comment_prefix == Some(prefix_str),
            s@ == content@,
            prefix@ == prefix_str@,
            ls == lines(s@),
            ls.len() <= s@.len(),
            file == file_path@,
            region@ == region_marker(),
            end@ == end_marker(),
            spans@.len() == ls.len(),
            forall|k: int|
                0 <= k < spans@.len() ==> {
                    &&& (#[trigger] spans@[k]).0 <= spans@[k].1 <= s@.len()
                    &&& s@.subrange(spans@[k].0 as int, spans@[k].1 as int) == ls[k]
                },
            i <= spans@.len(),
            target == scan_regions(file, ls, prefix@, 0, initial_scan()),
            forall|k: int| 0 <= k < regions@.len() ==> (#[trigger] regions@[k]).file@ == file,
            names_view(seen@).no_duplicates(),
            scan_regions(
                file,
                ls,
                prefix@,
                i as int,
                ScanView {
                    regions: regions_view(regions@),
                    open: opt_open(open),
                    seen: names_view(seen@),
                },
            ) == target,
        decreases spans@.len() - i,
    {
        let (lo, hi) = spans[i];
        let n = (i + 1) as u32;
        let kind = classify(s.as_slice(), lo, hi, prefix.as_slice(), region.as_slice(), end.as_slice());
        let ghost st = ScanView {
            regions: regions_view(regions@),
            open: opt_open(open),
            seen: names_view(seen@),
        };
        let ghost k = line_kind(ls[i as int], prefix@);
        proof {
            assert(s@.subrange(lo as int, hi as int) == ls[i as int]);
        }
        match kind {
            LineKindExec::Start(a, b) => {
                let name = string_of(s.as_slice(), a, b);
                match &open {
                    Some(current) => {
                        let outer = current.name.clone();
                        proof {
                            assert(region_step(file, st, k, n) == Err::<ScanView, RegionError>(
                                RegionError::Nested { outer: outer@, inner: name@ },
                            ));
                            assert(target == Err::<ScanView, RegionError>(
                                RegionError::Nested { outer: outer@, inner: name@ },
                            ));
                            assert(s@ == content@);
                            assert(file_regions(file, content@, Some(prefix_str@)) == Err::<
                                Seq<RegionView>,
                                RegionError,
                            >(RegionError::Nested { outer: outer@, inner: name@ }));
                        }
                        return Err(
                            LifeError::NestedRegion { file: file_clone(file_path), outer, inner: name },
                        );
                    },
                    None => {},
                }
                if seen_contains(&seen, &name) {
                    proof {
                        assert(region_step(file, st, k, n) == Err::<ScanView, RegionError>(
                            RegionError::Duplicate { name: name@ },
                        ));
                        assert(target == Err::<ScanView, RegionError>(
                            RegionError::Duplicate { name: name@ },
                        ));
                        assert(s@ == content@);
                        assert(file_regions(file, content@, Some(prefix_str@)) == Err::<
                            Seq<RegionView>,
                            RegionError,
                        >(RegionError::Duplicate { name: name@ }));
                    }
                    return Err(LifeError::DuplicateRegion { file: file_clone(file_path), name });
                }
                seen.push(name.clone());
                open = Some(
                    OpenRegion {
                        name,
                        start_line: n,
                        prose_blocks: Vec::new(),
                        current_prose: None,
                    },
                );
                proof {
                    assert(prose_view(Seq::<ProseBlock>::empty()) =~= seq![]);
                    assert(names_view(seen@) =~= st.seen.push(s@.subrange(a as int, b as int)));
                    let ns = names_view(seen@);
                    assert forall|x: int, y: int| 0 <= x < ns.len() && 0 <= y < ns.len() && x != y implies ns[x]
                        != ns[y] by {
                        if x == ns.len() - 1 && ns[x] == ns[y] {
                            assert(st.seen[y] == ns[y]);
                            assert(st.seen.contains(ns[x]));
                        }
                        if y == ns.len() - 1 && ns[x] == ns[y] {
                            assert(st.seen[x] == ns[x]);
                            assert(st.seen.contains(ns[y]));
                        }
                    }
                }
            },
            LineKindExec::End => {
                match open.take() {
                    Some(mut current) => {
                        let ghost ov = current.view();
                        flush(&mut current);
                        let reg = Region {
                            file: file_clone(file_path),
                            name: current.name,
                            start_line: current.start_line,
                            end_line: n,
                            prose: current.prose_blocks,
                        };
                        regions.push(reg);
                        proof {
                            assert(regions_view(regions@) =~= st.regions.push(
                                closed_region(file, ov, n),
                            ));
                        }
                    },
                    None => {},
                }
            },
            LineKindExec::Prose(a, b) => {
                match open.take() {
                    Some(mut current) => {
                        let ghost ov = current.view();
                        let text = string_of(s.as_slice(), a, b);
                        match current.current_prose.take() {
                            Some(mut block) => {
                                let ghost b0 = block.content@;
                                let ghost sl = block.start_line;
                                block.content.push('\n');
                                let mut j = a;
                                let ghost c0 = block.content@;
                                while j < b
                                    invariant
                                        a <= j <= b <= s@.len(),
                                        block.start_line == sl,
                                        block.content@ == c0 + s@.subrange(a as int, j as int),
                                    decreases b - j,
                                {
                                    block.content.push(s[j]);
                                    proof {
                                        assert(s@.subrange(a as int, j + 1) =~= s@.subrange(
                                            a as int,
                                            j as int,
                                        ).push(s@[j as int]));
                                    }
                                    j = j + 1;
                                }
                                proof {
                                    assert(block.content@ =~= b0 + seq!['\n'] + s@.subrange(
                                        a as int,
                                        b as int,
                                    ));
                                }
                                current.current_prose = Some(block);
                            },
                            None => {
                                current.current_prose = Some(
                                    ProseBlock { start_line: n, content: text },
                                );
                            },
                        }
                        open = Some(current);
                        proof {
                            let nv = opt_open(open).unwrap();
                            assert(nv.current == Some(
                                match ov.current {
                                    Some(bv) => ProseView {
                                        start_line: bv.start_line,
                                        content: bv.content + seq!['\n'] + s@.subrange(
                                            a as int,
                                            b as int,
                                        ),
                                    },
                                    None => ProseView {
                                        start_line: n,
                                        content: s@.subrange(a as int, b as int),
                                    },
                                },
                            ));
                        }
                    },
                    None => {},
                }
            },
            LineKindExec::Other => {
                match open.take() {
                    Some(mut current) => {
                        flush(&mut current);
                        open = Some(current);
                    },
                    None => {},
                }
            },
        }
        proof {
            assert(s@.subrange(lo as int, hi as int) == ls[i as int]);
            let next = ScanView {
                regions: regions_view(regions@),
                open: opt_open(open),
                seen: names_view(seen@),
            };
            assert(region_step(file, st, k, n) == Ok::<ScanView, RegionError>(next));
        }
        i = i + 1;
    }
    let ghost st = ScanView {
        regions: regions_view(regions@),
        open: opt_open(open),
        seen: names_view(seen@),
    };
    match open.take() {
        Some(mut current) => {
            let ghost ov = current.view();
            flush(&mut current);
            let last = spans.len() as u32;
            let reg = Region {
                file: file_clone(file_path),
                name: current.name,
                start_line: current.start_line,
                end_line: last,
                prose: current.prose_blocks,
            };
            regions.push(reg);
            proof {
                assert(regions_view(regions@) =~= st.regions.push(
                    closed_region(file, ov, ls.len() as u32),
                ));
            }
        },
        None => {},
    }
    Ok(regions)
}


// ---------------------------------------------------------------------------
// Laws

/// Every prose block of `ps` starts at a line after `lo` and at most `hi`,
/// and each starts at a later line than the one before it.
pub open spec fn prose_within(ps: Seq<ProseView>, lo: int, hi: int) -> bool {
    &&& forall|k: int| 0 <= k < ps.len() ==> lo < #[trigger] ps[k].start_line <= hi
    &&& forall|k: int, l: int|
        0 <= k < l < ps.len() ==> (#[trigger] ps[k]).start_line < (#[trigger] ps[l]).start_line
}

/// The regions of `file` do not nest and have distinct names: each belongs
/// to `file`, has a name that is not empty, and starts no later than it
/// ends, at most at line `bound`; each ends before the next one starts; no
/// two share a name; the prose blocks of a region start after its `@region`
/// line, inside the region, in increasing order.
pub open spec fn regions_well_formed(rs: Seq<RegionView>, file: Seq<char>, bound: int) -> bool {
    &&& forall|i: int|
        0 <= i < rs.len() ==> {
            &&& (#[trigger] rs[i]).file == file
            &&& rs[i].name.len() > 0
            &&& 1 <= rs[i].start_line <= rs[i].end_line <= bound
            &&& prose_within(rs[i].prose, rs[i].start_line as int, rs[i].end_line as int)
        }
    &&& forall|i: int, j: int|
        0 <= i < j < rs.len() ==> (#[trigger] rs[i]).end_line < (#[trigger] rs[j]).start_line
    &&& forall|i: int, j: int|
        0 <= i < j < rs.len() ==> (#[trigger] rs[i]).name != (#[trigger] rs[j]).name
}

spec fn named(rs: Seq<RegionView>, x: Seq<char>) -> bool {
    exists|i: int| 0 <= i < rs.len() && (#[trigger] rs[i]).name == x
}

spec fn scan_ok(st: ScanView, file: Seq<char>, done: int) -> bool {
    &&& regions_well_formed(st.regions, file, done)
    &&& forall|x: Seq<char>|
        #![trigger st.seen.contains(x)]
        st.seen.contains(x) <==> (named(st.regions, x) || (st.open is Some && st.open->0.name
            == x))
    &&& match st.open {
        Some(o) => {
            &&& 1 <= o.start_line <= done
            &&& forall|i: int|
                0 <= i < st.regions.len() ==> (#[trigger] st.regions[i]).end_line < o.start_line
            &&& !named(st.regions, o.name)
            &&& o.name.len() > 0
            &&& prose_within(o.blocks, o.start_line as int, done)
            &&& (o.current matches Some(b) ==> {
                &&& o.start_line < b.start_line <= done
                &&& forall|k: int|
                    0 <= k < o.blocks.len() ==> (#[trigger] o.blocks[k]).start_line < b.start_line
            })
        },
        None => true,
    }
}

proof fn lemma_flushed(o: OpenView, done: int)
    requires
        prose_within(o.blocks, o.start_line as int, done),
        o.current matches Some(b) ==> {
            &&& o.start_line < b.start_line <= done
            &&& forall|k: int|
                0 <= k < o.blocks.len() ==> (#[trigger] o.blocks[k]).start_line < b.start_line
        },
    ensures
        prose_within(flushed(o), o.start_line as int, done),
{
    if let Some(b) = o.current {
        let f = o.blocks.push(b);
        assert forall|k: int| 0 <= k < f.len() implies o.start_line < #[trigger] f[k].start_line
            <= done by {
            if k < o.blocks.len() {
                assert(f[k] == o.blocks[k]);
            }
        }
        assert forall|k: int, l: int| 0 <= k < l < f.len() implies (#[trigger] f[k]).start_line < (
        #[trigger] f[l]).start_line by {
            assert(f[k] == o.blocks[k]);
            if l < o.blocks.len() {
                assert(f[l] == o.blocks[l]);
            }
        }
    }
}

proof fn lemma_step_ok(file: Seq<char>, st: ScanView, kind: LineKind, done: int)
    requires
        scan_ok(st, file, done),
        0 <= done < u32::MAX,
        kind matches LineKind::Start(nm) ==> nm.len() > 0,
    ensures
        match region_step(file, st, kind, (done + 1) as u32) {
            Ok(next) => scan_ok(next, file, done + 1),
            Err(_) => true,
        },
{
    let n = (done + 1) as u32;
    assert(n == done + 1);
    let rs = st.regions;
    match region_step(file, st, kind, n) {
        Ok(next) => {
            match kind {
                LineKind::Start(name) => {
                    assert forall|x: Seq<char>| #![trigger next.seen.contains(x)]
                        next.seen.contains(x) <==> (named(next.regions, x) || (next.open is Some
                            && next.open->0.name == x)) by {
                        if next.seen.contains(x) && x != name {
                            let k = choose|k: int| 0 <= k < next.seen.len() && next.seen[k] == x;
                            assert(st.seen[k] == x);
                            assert(st.seen.contains(x));
                        }
                        if x != name && named(next.regions, x) {
                            assert(st.seen.contains(x));
                            let k = choose|k: int| 0 <= k < st.seen.len() && st.seen[k] == x;
                            assert(next.seen[k] == x);
                        }
                        if x == name {
                            assert(next.seen[next.seen.len() - 1] == x);
                        }
                    }
                    if named(rs, name) {
                        assert(st.seen.contains(name));
                    }
                },
                LineKind::End => {
                    if let Some(o) = st.open {
                        let r = closed_region(file, o, n);
                        assert(next.regions == rs.push(r));
                        lemma_flushed(o, done);
                        assert forall|i: int| 0 <= i < next.regions.len() implies {
                            &&& (#[trigger] next.regions[i]).file == file
                            &&& next.regions[i].name.len() > 0
                            &&& 1 <= next.regions[i].start_line <= next.regions[i].end_line
                                <= done + 1
                            &&& prose_within(
                                next.regions[i].prose,
                                next.regions[i].start_line as int,
                                next.regions[i].end_line as int,
                            )
                        } by {
                            if i == rs.len() {
                                assert(next.regions[i] == r);
                            } else {
                                assert(next.regions[i] == rs[i]);
                            }
                        }
                        assert forall|i: int, j: int|
                            0 <= i < j < next.regions.len() implies (#[trigger] next.regions[i]).end_line
                            < (#[trigger] next.regions[j]).start_line by {
                            assert(next.regions[i] == rs[i]);
                            if j < rs.len() {
                                assert(next.regions[j] == rs[j]);
                            }
                        }
                        assert forall|i: int, j: int|
                            0 <= i < j < next.regions.len() implies (#[trigger] next.regions[i]).name
                            != (#[trigger] next.regions[j]).name by {
                            assert(next.regions[i] == rs[i]);
                            if j < rs.len() {
                                assert(next.regions[j] == rs[j]);
                            }
                        }
                        assert forall|x: Seq<char>| #![trigger next.seen.contains(x)]
                            next.seen.contains(x) <==> (named(next.regions, x) || (
                            next.open is Some && next.open->0.name == x)) by {
                            if named(rs, x) {
                                let k = choose|k: int| 0 <= k < rs.len() && rs[k].name == x;
                                assert(next.regions[k] == rs[k]);
                            }
                            if x == o.name {
                                assert(next.regions[rs.len() as int].name == x);
                            }
                            if named(next.regions, x) {
                                let k = choose|k: int|
                                    0 <= k < next.regions.len() && next.regions[k].name == x;
                                if k < rs.len() {
                                    assert(rs[k] == next.regions[k]);
                                }
                            }
                        }
                    }
                },
                LineKind::Prose(text) => {
                    if let Some(o) = st.open {
                        let no = next.open->0;
                        assert(no.blocks == o.blocks);
                    }
                },
                LineKind::Other => {
                    if let Some(o) = st.open {
                        let no = next.open->0;
                        lemma_flushed(o, done);
                        assert(no.blocks == flushed(o));
                    }
                },
            }
        },
        Err(_) => {},
    }
}

proof fn lemma_scan_ok(file: Seq<char>, ls: Seq<Seq<char>>, prefix: Seq<char>, i: int, st: ScanView)
    requires
        0 <= i <= ls.len(),
        ls.len() <= u32::MAX,
        scan_ok(st, file, i),
    ensures
        match scan_regions(file, ls, prefix, i, st) {
            Ok(fin) => scan_ok(fin, file, ls.len() as int),
            Err(_) => true,
        },
    decreases ls.len() - i,
{
    if i < ls.len() {
        lemma_step_ok(file, st, line_kind(ls[i], prefix), i);
        match region_step(file, st, line_kind(ls[i], prefix), (i + 1) as u32) {
            Ok(next) => {
                lemma_scan_ok(file, ls, prefix, i + 1, next);
            },
            Err(_) => {},
        }
    }
}

/// Regions cannot nest and region names are unique per file: whenever a
/// file's regions are read without error, each region belongs to the file,
/// has a name that is not empty, starts no later than it ends, ends before
/// the next region starts, and carries a name no other region has; its prose
/// blocks start after its `@region` line and inside it, in increasing line
/// order. (Line numbers are `u32`: the law is stated for files of at most
/// `u32::MAX` lines.)
pub proof fn law_regions_well_formed(file: Seq<char>, content: Seq<char>, prefix: Option<Seq<char>>)
    requires
        lines(content).len() <= u32::MAX,
    ensures
        match file_regions(file, content, prefix) {
            Ok(rs) => regions_well_formed(rs, file, lines(content).len() as int),
            Err(_) => true,
        },
{
    match prefix {
        None => {},
        Some(p) => {
            let ls = lines(content);
            let init = initial_scan();
            assert(scan_ok(init, file, 0)) by {
                assert forall|x: Seq<char>| #![trigger init.seen.contains(x)]
                    init.seen.contains(x) <==> (named(init.regions, x) || (init.open is Some
                        && init.open->0.name == x)) by {}
            }
            lemma_scan_ok(file, ls, p, 0, init);
            match scan_regions(file, ls, p, 0, init) {
                Ok(fin) => {
                    if let Some(o) = fin.open {
                        let end = ls.len() as u32;
                        let r = closed_region(file, o, end);
                        let rs = fin.regions.push(r);
                        lemma_flushed(o, ls.len() as int);
                        assert forall|i: int| 0 <= i < rs.len() implies {
                            &&& (#[trigger] rs[i]).file == file
                            &&& rs[i].name.len() > 0
                            &&& 1 <= rs[i].start_line <= rs[i].end_line <= ls.len()
                            &&& prose_within(rs[i].prose, rs[i].start_line as int, rs[i].end_line as int)
                        } by {
                            if i == fin.regions.len() {
                                assert(rs[i] == r);
                            } else {
                                assert(rs[i] == fin.regions[i]);
                            }
                        }
                        assert forall|i: int, j: int|
                            0 <= i < j < rs.len() implies (#[trigger] rs[i]).end_line < (
                            #[trigger] rs[j]).start_line by {
                            assert(rs[i] == fin.regions[i]);
                            if j < fin.regions.len() {
                                assert(rs[j] == fin.regions[j]);
                            }
                        }
                        assert forall|i: int, j: int|
                            0 <= i < j < rs.len() implies (#[trigger] rs[i]).name != (
                            #[trigger] rs[j]).name by {
                            assert(rs[i] == fin.regions[i]);
                            if j < fin.regions.len() {
                                assert(rs[j] == fin.regions[j]);
                            } else {
                                assert(rs[j] == r);
                                if fin.regions[i].name == o.name {
                                    assert(named(fin.regions, o.name));
                                }
                            }
                        }
                    }
                },
                Err(_) => {},
            }
        },
    }
}

/// Without a comment prefix (freetext files such as markdown) a file has
/// no regions.
pub proof fn lemma_freetext_has_no_regions(file: Seq<char>, content: Seq<char>)
    ensures
        file_regions(file, content, None) == Ok::<Seq<RegionView>, RegionError>(seq![]),
{
}
// ---------------------------------------------------------------------------
// Prose blocks are runs of prose lines.

/// Prose block `b` is made of the prose lines `ts`: it starts at a line of
/// `ls` and covers one line per text, each of them a prose line with that
/// text, and its content is the texts joined by newlines.
pub open spec fn block_lines(b: ProseView, ts: Seq<Seq<char>>, ls: Seq<Seq<char>>, prefix: Seq<char>) -> bool {
    &&& ts.len() >= 1
    &&& b.content == join_lines(ts)
    &&& 1 <= b.start_line
    &&& b.start_line + ts.len() - 1 <= ls.len()
    &&& forall|t: int|
        0 <= t < ts.len() ==> line_kind(#[trigger] ls[b.start_line - 1 + t], prefix) == LineKind::Prose(
            ts[t],
        )
}

/// Prose block `b` of a region ending at line `end` is a run of prose
/// lines that nothing but the region's end or a line that is not prose
/// stops: consecutive prose lines, and the line after them, when it lies
/// in the region, is not a prose line.
pub open spec fn prose_run(b: ProseView, ls: Seq<Seq<char>>, prefix: Seq<char>, end: int) -> bool {
    exists|ts: Seq<Seq<char>>|
        #[trigger] block_lines(b, ts, ls, prefix) && (b.start_line + ts.len() <= end ==> !(line_kind(
            ls[b.start_line + ts.len() - 1],
            prefix,
        ) is Prose))
}

spec fn flushed_run(b: ProseView, ls: Seq<Seq<char>>, prefix: Seq<char>, done: int) -> bool {
    exists|ts: Seq<Seq<char>>|
        #[trigger] block_lines(b, ts, ls, prefix) && b.start_line + ts.len() <= done && !(line_kind(
            ls[b.start_line + ts.len() - 1],
            prefix,
        ) is Prose)
}

spec fn prose_inv(st: ScanView, ls: Seq<Seq<char>>, prefix: Seq<char>, done: int) -> bool {
    &&& forall|i: int, k: int|
        0 <= i < st.regions.len() && 0 <= k < st.regions[i].prose.len() ==> prose_run(
            #[trigger] st.regions[i].prose[k],
            ls,
            prefix,
            st.regions[i].end_line as int,
        )
    &&& st.open matches Some(o) ==> {
        &&& forall|k: int| 0 <= k < o.blocks.len() ==> flushed_run(#[trigger] o.blocks[k], ls, prefix, done)
        &&& o.current matches Some(b) ==> exists|ts: Seq<Seq<char>>|
            #[trigger] block_lines(b, ts, ls, prefix) && b.start_line + ts.len() - 1 == done
    }
}

proof fn lemma_join_push(ts: Seq<Seq<char>>, x: Seq<char>)
    requires
        ts.len() >= 1,
    ensures
        join_lines(ts.push(x)) == join_lines(ts) + seq!['\n'] + x,
    decreases ts.len(),
{
    let p = ts.push(x);
    assert(p[0] == ts[0]);
    if ts.len() == 1 {
        assert(p.drop_first() =~= seq![x]);
        assert(join_lines(seq![x]) == x);
    } else {
        assert(p.drop_first() =~= ts.drop_first().push(x));
        lemma_join_push(ts.drop_first(), x);
    }
}

/// The blocks of an open region once its current block is flushed are runs
/// that a line that is not prose (or the region's end at `done + 1`) stops.
#[verifier::spinoff_prover]
#[verifier::rlimit(40)]
proof fn lemma_flushed_runs(o: OpenView, ls: Seq<Seq<char>>, prefix: Seq<char>, done: int)
    requires
        0 <= done < ls.len(),
        !(line_kind(ls[done], prefix) is Prose),
        forall|k: int| 0 <= k < o.blocks.len() ==> flushed_run(#[trigger] o.blocks[k], ls, prefix, done),
        o.current matches Some(b) ==> exists|ts: Seq<Seq<char>>|
            #[trigger] block_lines(b, ts, ls, prefix) && b.start_line + ts.len() - 1 == done,
    ensures
        forall|k: int|
            0 <= k < flushed(o).len() ==> flushed_run(#[trigger] flushed(o)[k], ls, prefix, done + 1),
{
    let f = flushed(o);
    assert forall|k: int| 0 <= k < f.len() implies flushed_run(#[trigger] f[k], ls, prefix, done + 1) by {
        if k < o.blocks.len() {
            assert(f[k] == o.blocks[k]);
            assert(flushed_run(o.blocks[k], ls, prefix, done));
            let ts = choose|ts: Seq<Seq<char>>|
                #[trigger] block_lines(o.blocks[k], ts, ls, prefix) && o.blocks[k].start_line + ts.len()
                    <= done && !(line_kind(ls[o.blocks[k].start_line + ts.len() - 1], prefix) is Prose);
            assert(block_lines(f[k], ts, ls, prefix));
        } else {
            let b = o.current->0;
            assert(f[k] == b);
            let ts = choose|ts: Seq<Seq<char>>|
                #[trigger] block_lines(b, ts, ls, prefix) && b.start_line + ts.len() - 1 == done;
            assert(block_lines(f[k], ts, ls, prefix));
        }
    }
}

#[verifier::spinoff_prover]
#[verifier::rlimit(40)]
proof fn lemma_step_prose(file: Seq<char>, st: ScanView, ls: Seq<Seq<char>>, prefix: Seq<char>, done: int)
    requires
        prose_inv(st, ls, prefix, done),
        0 <= done < ls.len(),
        ls.len() <= u32::MAX,
    ensures
        match region_step(file, st, line_kind(ls[done], prefix), (done + 1) as u32) {
            Ok(next) => prose_inv(next, ls, prefix, done + 1),
            Err(_) => true,
        },
{
    let kind = line_kind(ls[done], prefix);
    let n = (done + 1) as u32;
    assert(n == done + 1);
    match region_step(file, st, kind, n) {
        Ok(next) => {
            match kind {
                LineKind::Start(name) => {},
                LineKind::End => {
                    if let Some(o) = st.open {
                        lemma_flushed_runs(o, ls, prefix, done);
                        let r = closed_region(file, o, n);
                        assert(next.regions == st.regions.push(r));
                        assert forall|i: int, k: int|
                            0 <= i < next.regions.len() && 0 <= k < next.regions[i].prose.len() implies prose_run(
                            #[trigger] next.regions[i].prose[k],
                            ls,
                            prefix,
                            next.regions[i].end_line as int,
                        ) by {
                            if i < st.regions.len() {
                                assert(next.regions[i] == st.regions[i]);
                            } else {
                                assert(next.regions[i] == r);
                                let b = r.prose[k];
                                assert(flushed_run(flushed(o)[k], ls, prefix, done + 1));
                                let ts = choose|ts: Seq<Seq<char>>|
                                    #[trigger] block_lines(b, ts, ls, prefix) && b.start_line + ts.len()
                                        <= done + 1 && !(line_kind(ls[b.start_line + ts.len() - 1], prefix) is Prose);
                                assert(block_lines(b, ts, ls, prefix));
                            }
                        }
                    }
                },
                LineKind::Prose(text) => {
                    if let Some(o) = st.open {
                        let no = next.open->0;
                        assert(no.blocks == o.blocks);
                        assert forall|k: int| 0 <= k < no.blocks.len() implies flushed_run(
                            #[trigger] no.blocks[k],
                            ls,
                            prefix,
                            done + 1,
                        ) by {
                            assert(flushed_run(o.blocks[k], ls, prefix, done));
                            let ts = choose|ts: Seq<Seq<char>>|
                                #[trigger] block_lines(o.blocks[k], ts, ls, prefix) && o.blocks[k].start_line
                                    + ts.len() <= done && !(line_kind(
                                    ls[o.blocks[k].start_line + ts.len() - 1],
                                    prefix,
                                ) is Prose);
                            assert(block_lines(no.blocks[k], ts, ls, prefix));
                        }
                        let nb = no.current->0;
                        match o.current {
                            Some(b) => {
                                let ts = choose|ts: Seq<Seq<char>>|
                                    #[trigger] block_lines(b, ts, ls, prefix) && b.start_line + ts.len() - 1
                                        == done;
                                let ts2 = ts.push(text);
                                lemma_join_push(ts, text);
                                assert forall|t: int| 0 <= t < ts2.len() implies line_kind(
                                    #[trigger] ls[nb.start_line - 1 + t],
                                    prefix,
                                ) == LineKind::Prose(ts2[t]) by {
                                    if t < ts.len() {
                                        assert(ts2[t] == ts[t]);
                                    }
                                }
                                assert(block_lines(nb, ts2, ls, prefix));
                            },
                            None => {
                                let ts2 = seq![text];
                                assert(join_lines(ts2) == text);
                                assert forall|t: int| 0 <= t < ts2.len() implies line_kind(
                                    #[trigger] ls[nb.start_line - 1 + t],
                                    prefix,
                                ) == LineKind::Prose(ts2[t]) by {}
                                assert(block_lines(nb, ts2, ls, prefix));
                            },
                        }
                    }
                },
                LineKind::Other => {
                    if let Some(o) = st.open {
                        lemma_flushed_runs(o, ls, prefix, done);
                        let no = next.open->0;
                        assert(no.blocks == flushed(o));
                    }
                },
            }
        },
        Err(_) => {},
    }
}

proof fn lemma_scan_prose(file: Seq<char>, ls: Seq<Seq<char>>, prefix: Seq<char>, i: int, st: ScanView)
    requires
        0 <= i <= ls.len(),
        ls.len() <= u32::MAX,
        prose_inv(st, ls, prefix, i),
    ensures
        match scan_regions(file, ls, prefix, i, st) {
            Ok(fin) => prose_inv(fin, ls, prefix, ls.len() as int),
            Err(_) => true,
        },
    decreases ls.len() - i,
{
    if i < ls.len() {
        lemma_step_prose(file, st, ls, prefix, i);
        match region_step(file, st, line_kind(ls[i], prefix), (i + 1) as u32) {
            Ok(next) => {
                lemma_scan_prose(file, ls, prefix, i + 1, next);
            },
            Err(_) => {},
        }
    }
}

/// Prose blocks are contiguous runs of prose lines: in the regions of a
/// file read without error, each prose block covers consecutive lines, one
/// per line of its content, each of them a prose line holding that text;
/// the line after the block, when it lies in the region, is not a prose
/// line. So any other line, a blank one included, ends a block, and a block
/// never spans one. (Line numbers are `u32`: the law is stated for files of
/// at most `u32::MAX` lines.)
#[verifier::spinoff_prover]
#[verifier::rlimit(40)]
pub proof fn law_prose_blocks_are_runs(file: Seq<char>, content: Seq<char>, prefix: Seq<char>)
    requires
        lines(content).len() <= u32::MAX,
    ensures
        match file_regions(file, content, Some(prefix)) {
            Ok(rs) => forall|i: int, k: int|
                0 <= i < rs.len() && 0 <= k < rs[i].prose.len() ==> prose_run(
                    #[trigger] rs[i].prose[k],
                    lines(content),
                    prefix,
                    rs[i].end_line as int,
                ),
            Err(_) => true,
        },
{
    let ls = lines(content);
    let init = initial_scan();
    lemma_scan_prose(file, ls, prefix, 0, init);
    match scan_regions(file, ls, prefix, 0, init) {
        Ok(fin) => {
            if let Some(o) = fin.open {
                let end = ls.len() as u32;
                let r = closed_region(file, o, end);
                let rs = fin.regions.push(r);
                assert forall|i: int, k: int|
                    0 <= i < rs.len() && 0 <= k < rs[i].prose.len() implies prose_run(
                    #[trigger] rs[i].prose[k],
                    ls,
                    prefix,
                    rs[i].end_line as int,
                ) by {
                    if i < fin.regions.len() {
                        assert(rs[i] == fin.regions[i]);
                    } else {
                        assert(rs[i] == r);
                        let f = flushed(o);
                        let b = f[k];
                        if k < o.blocks.len() {
                            assert(f[k] == o.blocks[k]);
                            assert(flushed_run(o.blocks[k], ls, prefix, ls.len() as int));
                            let ts = choose|ts: Seq<Seq<char>>|
                                #[trigger] block_lines(o.blocks[k], ts, ls, prefix) && o.blocks[k].start_line
                                    + ts.len() <= ls.len() && !(line_kind(
                                    ls[o.blocks[k].start_line + ts.len() - 1],
                                    prefix,
                                ) is Prose);
                            assert(block_lines(b, ts, ls, prefix));
                        } else {
                            let c = o.current->0;
                            assert(b == c);
                            let ts = choose|ts: Seq<Seq<char>>|
                                #[trigger] block_lines(c, ts, ls, prefix) && c.start_line + ts.len() - 1
                                    == ls.len();
                            assert(block_lines(b, ts, ls, prefix));
                        }
                    }
                }
            }
        },
        Err(_) => {},
    }
}

// ---------------------------------------------------------------------------
// Regions follow their markers.

/// Region `r` of lines `ls` sits on its markers: its first line is its
/// `@region` line, its last line is an `@end` line (or the file's last
/// line, when the file ends with the region open), and no line strictly
/// between holds a marker.
pub open spec fn region_on_markers(r: RegionView, ls: Seq<Seq<char>>, prefix: Seq<char>) -> bool {
    &&& 1 <= r.start_line <= r.end_line <= ls.len()
    &&& line_kind(ls[r.start_line - 1], prefix) == LineKind::Start(r.name)
    &&& line_kind(ls[r.end_line - 1], prefix) is End || r.end_line == ls.len()
    &&& forall|m: int|
        r.start_line < m < r.end_line ==> !(#[trigger] line_kind(ls[m - 1], prefix) is Start) && !(line_kind(
            ls[m - 1],
            prefix,
        ) is End)
}

/// A region of `rs` starts at line `m` (from 1).
pub open spec fn starts_region(rs: Seq<RegionView>, m: int) -> bool {
    exists|i: int| 0 <= i < rs.len() && (#[trigger] rs[i]).start_line == m
}

spec fn markers_inv(st: ScanView, ls: Seq<Seq<char>>, prefix: Seq<char>, done: int) -> bool {
    &&& forall|i: int|
        0 <= i < st.regions.len() ==> region_on_markers(#[trigger] st.regions[i], ls, prefix) && line_kind(
            ls[st.regions[i].end_line - 1],
            prefix,
        ) is End && st.regions[i].end_line <= done
    &&& st.open matches Some(o) ==> {
        &&& 1 <= o.start_line <= done
        &&& line_kind(ls[o.start_line - 1], prefix) == LineKind::Start(o.name)
        &&& forall|m: int|
            o.start_line < m <= done ==> !(#[trigger] line_kind(ls[m - 1], prefix) is Start) && !(line_kind(
                ls[m - 1],
                prefix,
            ) is End)
    }
    &&& forall|m: int|
        1 <= m <= done && #[trigger] line_kind(ls[m - 1], prefix) is Start ==> starts_region(st.regions, m)
            || (st.open matches Some(o) && o.start_line == m)
}

#[verifier::spinoff_prover]
#[verifier::rlimit(40)]
proof fn lemma_step_markers(file: Seq<char>, st: ScanView, ls: Seq<Seq<char>>, prefix: Seq<char>, done: int)
    requires
        markers_inv(st, ls, prefix, done),
        0 <= done < ls.len(),
        ls.len() <= u32::MAX,
    ensures
        match region_step(file, st, line_kind(ls[done], prefix), (done + 1) as u32) {
            Ok(next) => markers_inv(next, ls, prefix, done + 1),
            Err(_) => true,
        },
{
    let kind = line_kind(ls[done], prefix);
    let n = (done + 1) as u32;
    assert(n == done + 1);
    assert(ls[n - 1] == ls[done]);
    match region_step(file, st, kind, n) {
        Ok(next) => {
            match kind {
                LineKind::Start(name) => {
                    assert forall|m: int|
                        1 <= m <= done + 1 && #[trigger] line_kind(ls[m - 1], prefix) is Start implies starts_region(
                        next.regions,
                        m,
                    ) || (next.open matches Some(o) && o.start_line == m) by {
                        if m <= done {
                            assert(starts_region(st.regions, m));
                        }
                    }
                },
                LineKind::End => {
                    if let Some(o) = st.open {
                        let r = closed_region(file, o, n);
                        assert(next.regions == st.regions.push(r));
                        assert forall|i: int| 0 <= i < next.regions.len() implies region_on_markers(
                            #[trigger] next.regions[i],
                            ls,
                            prefix,
                        ) && line_kind(ls[next.regions[i].end_line - 1], prefix) is End
                            && next.regions[i].end_line <= done + 1 by {
                            if i < st.regions.len() {
                                assert(next.regions[i] == st.regions[i]);
                            } else {
                                assert(next.regions[i] == r);
                            }
                        }
                        assert forall|m: int|
                            1 <= m <= done + 1 && #[trigger] line_kind(ls[m - 1], prefix) is Start implies starts_region(
                            next.regions,
                            m,
                        ) by {
                            if m == o.start_line {
                                assert(next.regions[st.regions.len() as int] == r);
                            } else {
                                assert(m <= done);
                                assert(starts_region(st.regions, m));
                                let i = choose|i: int| 0 <= i < st.regions.len() && (#[trigger] st.regions[i]).start_line == m;
                                assert(next.regions[i] == st.regions[i]);
                            }
                        }
                    }
                },
                _ => {
                    if let Some(o) = st.open {
                        assert(next.open->0.start_line == o.start_line);
                        assert(next.open->0.name == o.name);
                    }
                    assert forall|m: int|
                        1 <= m <= done + 1 && #[trigger] line_kind(ls[m - 1], prefix) is Start implies starts_region(
                        next.regions,
                        m,
                    ) || (next.open matches Some(o) && o.start_line == m) by {
                        assert(m <= done);
                    }
                },
            }
        },
        Err(_) => {},
    }
}

proof fn lemma_scan_markers(file: Seq<char>, ls: Seq<Seq<char>>, prefix: Seq<char>, i: int, st: ScanView)
    requires
        0 <= i <= ls.len(),
        ls.len() <= u32::MAX,
        markers_inv(st, ls, prefix, i),
    ensures
        match scan_regions(file, ls, prefix, i, st) {
            Ok(fin) => markers_inv(fin, ls, prefix, ls.len() as int),
            Err(_) => true,
        },
    decreases ls.len() - i,
{
    if i < ls.len() {
        lemma_step_markers(file, st, ls, prefix, i);
        match region_step(file, st, line_kind(ls[i], prefix), (i + 1) as u32) {
            Ok(next) => {
                lemma_scan_markers(file, ls, prefix, i + 1, next);
            },
            Err(_) => {},
        }
    }
}

/// Regions follow their markers: in the regions of a file read without
/// error, each region starts at its `@region` line and ends at an `@end`
/// line (or at the file's last line, when the file ends inside it), with
/// no marker in between; and every `@region` line of the file starts one
/// of the regions. (Line numbers are `u32`: the law is stated for files of
/// at most `u32::MAX` lines.)
#[verifier::spinoff_prover]
#[verifier::rlimit(40)]
pub proof fn law_regions_follow_markers(file: Seq<char>, content: Seq<char>, prefix: Seq<char>)
    requires
        lines(content).len() <= u32::MAX,
    ensures
        match file_regions(file, content, Some(prefix)) {
            Ok(rs) => {
                &&& forall|i: int| 0 <= i < rs.len() ==> region_on_markers(#[trigger] rs[i], lines(content), prefix)
                &&& forall|m: int|
                    1 <= m <= lines(content).len() && #[trigger] line_kind(lines(content)[m - 1], prefix) is Start
                        ==> starts_region(rs, m)
            },
            Err(_) => true,
        },
{
    let ls = lines(content);
    let init = initial_scan();
    lemma_scan_markers(file, ls, prefix, 0, init);
    match scan_regions(file, ls, prefix, 0, init) {
        Ok(fin) => {
            if let Some(o) = fin.open {
                let end = ls.len() as u32;
                let r = closed_region(file, o, end);
                let rs = fin.regions.push(r);
                assert forall|i: int| 0 <= i < rs.len() implies region_on_markers(#[trigger] rs[i], ls, prefix) by {
                    if i < fin.regions.len() {
                        assert(rs[i] == fin.regions[i]);
                    } else {
                        assert(rs[i] == r);
                    }
                }
                assert forall|m: int|
                    1 <= m <= ls.len() && #[trigger] line_kind(ls[m - 1], prefix) is Start implies starts_region(rs, m) by {
                    if m == o.start_line {
                        assert(rs[fin.regions.len() as int] == r);
                    } else {
                        let i = choose|i: int| 0 <= i < fin.regions.len() && (#[trigger] fin.regions[i]).start_line == m;
                        assert(rs[i] == fin.regions[i]);
                    }
                }
            }
        },
        Err(_) => {},
    }
}

} // verus!
