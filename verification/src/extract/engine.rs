//! The extraction engine: one function, parameterized by an extractor
//! definition. It runs three passes over a file: links (the whole text in
//! freetext mode, only comments otherwise), regions, and frontmatter
//! (freetext only).

use vstd::prelude::*;
use crate::errors::LifeError;
use crate::extract::config::{DefView, ExtractorDef};
use crate::extract::frontmatter::{extract_frontmatter, frontmatter_attributes};
use crate::extract::links::{
    LinkView, RawLink, block_links, comment_links_of_lines, extract_links,
    extract_links_from_block_comments, extract_links_from_comments, links_view, text_links,
};
use crate::extract::regions::{RegionError, extract_regions, file_regions, regions_result_matches};
use crate::text::{chars_of, lines};
use crate::types::{
    AttributeView, Edge, EdgeView, Extracted, NodePath, RegionView, attributes_view, edges_view,
    node_new, opt_seq, opt_string, regions_view,
};

verus! {

// ---------------------------------------------------------------------------
// Ordering and deduplication of links

/// `a` comes before `b` in the order of `str`: code point by code point,
/// a proper prefix first.
pub open spec fn text_lt(a: Seq<char>, b: Seq<char>) -> bool
    decreases a.len(),
{
    if b.len() == 0 {
        false
    } else if a.len() == 0 {
        true
    } else if a[0] != b[0] {
        (a[0] as u32) < (b[0] as u32)
    } else {
        text_lt(a.drop_first(), b.drop_first())
    }
}

/// The order links are sorted by: line, then column, then path.
pub open spec fn link_lt(x: LinkView, y: LinkView) -> bool {
    ||| x.line < y.line
    ||| x.line == y.line && x.col < y.col
    ||| x.line == y.line && x.col == y.col && text_lt(x.path, y.path)
}

/// Where a stable insertion puts `x` into the sorted `o`: before the first
/// element, from `i` on, that `x` comes before.
pub open spec fn insert_pos(o: Seq<LinkView>, x: LinkView, i: int) -> int
    decreases o.len() - i,
{
    if i < 0 || i >= o.len() {
        o.len() as int
    } else if link_lt(x, o[i]) {
        i
    } else {
        insert_pos(o, x, i + 1)
    }
}

/// The links sorted by `link_lt`, links that compare equal keeping their
/// order (a stable sort).
pub open spec fn sort_links(s: Seq<LinkView>) -> Seq<LinkView>
    decreases s.len(),
{
    if s.len() == 0 {
        seq![]
    } else {
        let o = sort_links(s.drop_last());
        o.insert(insert_pos(o, s.last(), 0), s.last())
    }
}

/// Two links are duplicates when path, fragment and line agree.
pub open spec fn same_link(a: LinkView, b: LinkView) -> bool {
    a.path == b.path && a.fragment == b.fragment && a.line == b.line
}

/// Some link of `d` has the key (path, fragment, line) of `x`.
pub open spec fn has_key(d: Seq<LinkView>, x: LinkView) -> bool {
    exists|i: int| 0 <= i < d.len() && same_link(#[trigger] d[i], x)
}

/// The links, in order, keeping only the first link of each key (path,
/// fragment, line).
pub open spec fn dedup_spec(o: Seq<LinkView>) -> Seq<LinkView>
    decreases o.len(),
{
    if o.len() == 0 {
        seq![]
    } else {
        let d = dedup_spec(o.drop_last());
        if has_key(d, o.last()) {
            d
        } else {
            d.push(o.last())
        }
    }
}

/// Whether `a` comes before `b`.
fn text_lt_exec(a: &Vec<char>, b: &Vec<char>) -> (r: bool)
    ensures
        r == text_lt(a@, b@),
{
    let mut i: usize = 0;
    proof {
        assert(a@.skip(0) =~= a@);
        assert(b@.skip(0) =~= b@);
    }
    loop
        invariant
            i <= a@.len(),
            i <= b@.len(),
            text_lt(a@, b@) == text_lt(a@.skip(i as int), b@.skip(i as int)),
        decreases a@.len() - i,
    {
        if i == b.len() {
            return false;
        }
        if i == a.len() {
            return true;
        }
        proof {
            assert(a@.skip(i as int)[0] == a@[i as int]);
            assert(b@.skip(i as int)[0] == b@[i as int]);
        }
        if a[i] != b[i] {
            return (a[i] as u32) < (b[i] as u32);
        }
        proof {
            assert(a@.skip(i as int).drop_first() =~= a@.skip(i + 1));
            assert(b@.skip(i as int).drop_first() =~= b@.skip(i + 1));
        }
        i = i + 1;
    }
}

/// Whether `x` comes before `y`.
fn link_lt_exec(x: &RawLink, y: &RawLink) -> (r: bool)
    ensures
        r == link_lt(x@, y@),
{
    if x.line != y.line {
        return x.line < y.line;
    }
    if x.col != y.col {
        return x.col < y.col;
    }
    let a = chars_of(x.path.as_str());
    let b = chars_of(y.path.as_str());
    text_lt_exec(&a, &b)
}

/// Whether two optional strings are equal.
fn opt_eq(a: &Option<String>, b: &Option<String>) -> (r: bool)
    ensures
        r == (opt_string(*a) == opt_string(*b)),
{
    match (a, b) {
        (Some(x), Some(y)) => *x == *y,
        (None, None) => true,
        _ => false,
    }
}

/// Whether two links are duplicates.
fn same_link_exec(a: &RawLink, b: &RawLink) -> (r: bool)
    ensures
        r == same_link(a@, b@),
{
    a.path == b.path && opt_eq(&a.fragment, &b.fragment) && a.line == b.line
}

/// Whether some kept link has the key of `x`.
fn has_key_exec(out: &Vec<RawLink>, x: &RawLink) -> (r: bool)
    ensures
        r == has_key(links_view(out@), x@),
{
    let ghost ov = links_view(out@);
    let mut i: usize = 0;
    while i < out.len()
        invariant
            ov == links_view(out@),
            i <= out@.len(),
            forall|k: int| 0 <= k < i ==> !same_link(#[trigger] ov[k], x@),
        decreases out@.len() - i,
    {
        if same_link_exec(&out[i], x) {
            proof {
                assert(same_link(ov[i as int], x@));
            }
            return true;
        }
        i = i + 1;
    }
    false
}

proof fn lemma_insert_pos(o: Seq<LinkView>, x: LinkView, i: int)
    requires
        0 <= i <= o.len(),
    ensures
        i <= insert_pos(o, x, i) <= o.len(),
    decreases o.len() - i,
{
    if i < o.len() && !link_lt(x, o[i]) {
        lemma_insert_pos(o, x, i + 1);
    }
}

/// The position a stable insertion puts `x` at in the sorted `o`.
fn insert_pos_exec(o: &Vec<RawLink>, x: &RawLink) -> (r: usize)
    ensures
        r == insert_pos(links_view(o@), x@, 0),
        r <= o@.len(),
{
    let ghost ov = links_view(o@);
    let mut i: usize = 0;
    while i < o.len()
        invariant
            ov == links_view(o@),
            i <= o@.len(),
            insert_pos(ov, x@, 0) == insert_pos(ov, x@, i as int),
        decreases o@.len() - i,
    {
        if link_lt_exec(x, &o[i]) {
            return i;
        }
        i = i + 1;
    }
    i
}

/// Deduplicate links by (path, fragment, line): the links are sorted by
/// line, column and path (stably), then only the first link of each key
/// is kept.
pub fn dedup_links(links: Vec<RawLink>) -> (r: Vec<RawLink>)
    ensures
        links_view(r@) == dedup_spec(sort_links(links_view(links@))),
{
    let ghost input = links_view(links@);
    let mut rest = links;
    let mut sorted: Vec<RawLink> = Vec::new();
    let ghost mut done: Seq<LinkView> = seq![];
    proof {
        assert(input =~= done + links_view(rest@));
    }
    while rest.len() > 0
        invariant
            input == done + links_view(rest@),
            links_view(sorted@) == sort_links(done),
        decreases rest@.len(),
    {
        let ghost old_rest = links_view(rest@);
        let x = rest.remove(0);
        proof {
            assert(links_view(rest@) =~= old_rest.drop_first());
            assert(x@ == old_rest[0]);
        }
        let p = insert_pos_exec(&sorted, &x);
        let ghost before = links_view(sorted@);
        sorted.insert(p, x);
        proof {
            assert(links_view(sorted@) =~= before.insert(p as int, x@));
            let nd = done.push(x@);
            assert(nd.drop_last() =~= done);
            assert(input =~= nd + links_view(rest@));
            done = nd;
        }
    }
    proof {
        assert(links_view(rest@) =~= seq![]);
        assert(done =~= input);
    }
    let ghost so = links_view(sorted@);
    let mut out: Vec<RawLink> = Vec::new();
    let ghost mut seen: Seq<LinkView> = seq![];
    proof {
        assert(so =~= seen + links_view(sorted@));
    }
    while sorted.len() > 0
        invariant
            so == seen + links_view(sorted@),
            links_view(out@) == dedup_spec(seen),
        decreases sorted@.len(),
    {
        let ghost old_sorted = links_view(sorted@);
        let x = sorted.remove(0);
        proof {
            assert(links_view(sorted@) =~= old_sorted.drop_first());
            assert(x@ == old_sorted[0]);
        }
        let ghost ns = seen.push(x@);
        proof {
            assert(ns.drop_last() =~= seen);
        }
        if !has_key_exec(&out, &x) {
            let ghost before = links_view(out@);
            out.push(x);
            proof {
                assert(links_view(out@) =~= before.push(x@));
            }
        }
        proof {
            assert(so =~= ns + links_view(sorted@));
            seen = ns;
        }
    }
    proof {
        assert(seen =~= so);
    }
    out
}

// ---------------------------------------------------------------------------
// The engine

/// The links an extractor definition finds in a text: in freetext mode all
/// links of the text; otherwise those of the line comments followed by
/// those of the block comments, sorted and deduplicated.
pub open spec fn raw_links(content: Seq<char>, d: DefView) -> Seq<LinkView> {
    if d.freetext {
        text_links(content)
    } else {
        let ls = lines(content);
        let line = match d.line_comment {
            Some(p) => comment_links_of_lines(ls, p),
            None => seq![],
        };
        let block = match d.block_comment {
            Some(oc) => block_links(ls, oc.0, oc.1, 0, false, seq![], 0, 0),
            None => seq![],
        };
        dedup_spec(sort_links(line + block))
    }
}

/// The edges from `file` that links make: one per link whose path makes a
/// node (absolute, or `~` with a home directory); other links are skipped.
pub open spec fn edges_of(file: Seq<char>, ls: Seq<LinkView>, home: Option<Seq<char>>) -> Seq<
    EdgeView,
>
    decreases ls.len(),
{
    if ls.len() == 0 {
        seq![]
    } else {
        edges_of(file, ls.drop_last(), home) + match node_new(ls.last().path, home) {
            Some(t) => seq![EdgeView { source: file, target: t, fragment: ls.last().fragment }],
            None => seq![],
        }
    }
}

/// What `extract` returns for a file: its edges, its regions, and in
/// freetext mode its frontmatter attributes; or the region error.
pub open spec fn extracted_matches(
    r: Result<Extracted, LifeError>,
    file: Seq<char>,
    content: Seq<char>,
    d: DefView,
    home: Option<Seq<char>>,
) -> bool {
    let attrs = if d.freetext {
        frontmatter_attributes(file, content)
    } else {
        seq![]
    };
    match (r, file_regions(file, content, d.line_comment)) {
        (Ok(x), Ok(rs)) => {
            &&& edges_view(x.edges@) == edges_of(file, raw_links(content, d), home)
            &&& regions_view(x.regions@) == rs
            &&& attributes_view(x.attributes@) == attrs
        },
        (Err(e), Err(re)) => regions_result_matches(Err(e), file, Err(re)),
        _ => false,
    }
}

/// The links the definition finds in the text.
fn links_for(content: &str, def: &ExtractorDef) -> (r: Vec<RawLink>)
    ensures
        links_view(r@) == raw_links(content@, def@),
{
    if def.freetext {
        extract_links(content)
    } else {
        let mut all: Vec<RawLink> = Vec::new();
        match &def.line_comment {
            Some(prefix) => {
                let mut v = extract_links_from_comments(content, prefix.as_str());
                all.append(&mut v);
            },
            None => {},
        }
        let ghost line = links_view(all@);
        match &def.block_comment {
            Some((open, close)) => {
                let mut v = extract_links_from_block_comments(content, open.as_str(), close.as_str());
                all.append(&mut v);
            },
            None => {},
        }
        proof {
            let d = def@;
            let ls = lines(content@);
            let lv = match d.line_comment {
                Some(p) => comment_links_of_lines(ls, p),
                None => seq![],
            };
            let bv = match d.block_comment {
                Some(oc) => block_links(ls, oc.0, oc.1, 0, false, seq![], 0, 0),
                None => seq![],
            };
            assert(line =~= lv);
            assert(links_view(all@) =~= lv + bv);
        }
        dedup_links(all)
    }
}

/// Run extraction on a single file's contents: links become edges from
/// `file_path` (paths that make no node are skipped; `home` expands `~`),
/// regions come from the line-comment syntax, and frontmatter is read in
/// freetext mode only. Fails on nested or duplicate regions.
pub fn extract(file_path: &NodePath, content: &str, def: &ExtractorDef, home: Option<&str>) -> (r:
    Result<Extracted, LifeError>)
    ensures
        extracted_matches(r, file_path@, content@, def@, opt_seq(home)),
{
    let mut raw = links_for(content, def);
    let ghost all = links_view(raw@);
    let ghost file = file_path@;
    let mut edges: Vec<Edge> = Vec::new();
    let ghost mut done: Seq<LinkView> = seq![];
    proof {
        assert(all =~= done + links_view(raw@));
        assert(edges_view(edges@) =~= seq![]);
    }
    while raw.len() > 0
        invariant
            file == file_path@,
            all == done + links_view(raw@),
            edges_view(edges@) == edges_of(file, done, opt_seq(home)),
        decreases raw@.len(),
    {
        let ghost old_raw = links_view(raw@);
        let link = raw.remove(0);
        let ghost nd = done.push(link@);
        proof {
            assert(links_view(raw@) =~= old_raw.drop_first());
            assert(link@ == old_raw[0]);
            assert(nd.drop_last() =~= done);
        }
        let ghost before = edges_view(edges@);
        match NodePath::new(link.path.as_str(), home) {
            Some(target) => {
                let e = Edge { source: file_path.clone(), target, fragment: link.fragment };
                edges.push(e);
                proof {
                    assert(edges_view(edges@) =~= before + seq![
                        EdgeView { source: file, target: target@, fragment: link@.fragment },
                    ]);
                }
            },
            None => {
                proof {
                    assert(edges_view(edges@) =~= before + seq![]);
                }
            },
        }
        proof {
            assert(all =~= nd + links_view(raw@));
            done = nd;
        }
    }
    proof {
        assert(links_view(raw@) =~= seq![]);
        assert(done =~= all);
    }
    let prefix = match &def.line_comment {
        Some(p) => Some(p.as_str()),
        None => None,
    };
    let regions = match extract_regions(file_path, content, prefix) {
        Ok(v) => v,
        Err(e) => {
            proof {
                assert(match prefix {
                    Some(p) => Some(p@),
                    None => None,
                } == def@.line_comment);
            }
            return Err(e);
        },
    };
    proof {
        assert(match prefix {
            Some(p) => Some(p@),
            None => None,
        } == def@.line_comment);
    }
    let attributes = if def.freetext {
        extract_frontmatter(file_path, content)
    } else {
        let v: Vec<crate::types::Attribute> = Vec::new();
        proof {
            assert(attributes_view(v@) =~= seq![]);
        }
        v
    };
    Ok(Extracted { edges, regions, attributes })
}

/// Every edge an extraction yields starts at the extracted file, and ends
/// at a node that the path of one of the links makes.
pub proof fn lemma_edges_start_at_file(file: Seq<char>, ls: Seq<LinkView>, home: Option<Seq<char>>)
    ensures
        forall|i: int|
            0 <= i < edges_of(file, ls, home).len() ==> {
                &&& (#[trigger] edges_of(file, ls, home)[i]).source == file
                &&& exists|j: int|
                    0 <= j < ls.len() && node_new(ls[j].path, home) == Some(
                        edges_of(file, ls, home)[i].target,
                    )
            },
    decreases ls.len(),
{
    if ls.len() > 0 {
        let prev = ls.drop_last();
        lemma_edges_start_at_file(file, prev, home);
        let es = edges_of(file, ls, home);
        assert forall|i: int| 0 <= i < es.len() implies {
            &&& (#[trigger] es[i]).source == file
            &&& exists|j: int| 0 <= j < ls.len() && node_new(ls[j].path, home) == Some(es[i].target)
        } by {
            let pe = edges_of(file, prev, home);
            if i < pe.len() {
                assert(es[i] == pe[i]);
                let j = choose|j: int| 0 <= j < prev.len() && node_new(prev[j].path, home) == Some(pe[i].target);
                assert(ls[j] == prev[j]);
            } else {
                assert(node_new(ls[ls.len() - 1].path, home) == Some(es[i].target));
            }
        }
    }
}

/// `text_lt` is irreflexive.
proof fn lemma_text_lt_irrefl(a: Seq<char>)
    ensures
        !text_lt(a, a),
    decreases a.len(),
{
    if a.len() > 0 {
        lemma_text_lt_irrefl(a.drop_first());
    }
}

/// `text_lt` is transitive.
proof fn lemma_text_lt_trans(a: Seq<char>, b: Seq<char>, c: Seq<char>)
    requires
        text_lt(a, b),
        text_lt(b, c),
    ensures
        text_lt(a, c),
    decreases a.len(),
{
    if a.len() > 0 && b.len() > 0 && c.len() > 0 && a[0] == b[0] && b[0] == c[0] {
        lemma_text_lt_trans(a.drop_first(), b.drop_first(), c.drop_first());
    }
}

/// `link_lt` is irreflexive and transitive.
proof fn lemma_link_lt_order(x: LinkView, y: LinkView, z: LinkView)
    ensures
        !link_lt(x, x),
        link_lt(x, y) && link_lt(y, z) ==> link_lt(x, z),
{
    lemma_text_lt_irrefl(x.path);
    if link_lt(x, y) && link_lt(y, z) && x.line == y.line && y.line == z.line && x.col == y.col
        && y.col == z.col {
        lemma_text_lt_trans(x.path, y.path, z.path);
    }
}

/// No link of `s` comes before one earlier in `s`.
pub open spec fn links_ordered(s: Seq<LinkView>) -> bool {
    forall|i: int, j: int| 0 <= i < j < s.len() ==> !link_lt(#[trigger] s[j], #[trigger] s[i])
}

proof fn lemma_insert_ordered(o: Seq<LinkView>, x: LinkView)
    requires
        links_ordered(o),
    ensures
        links_ordered(o.insert(insert_pos(o, x, 0), x)),
{
    let k = insert_pos(o, x, 0);
    lemma_insert_pos(o, x, 0);
    lemma_insert_pos_before(o, x, 0);
    let n = o.insert(k, x);
    assert forall|i: int, j: int| 0 <= i < j < n.len() implies !link_lt(#[trigger] n[j], #[trigger] n[i]) by {
        if j < k {
            assert(n[i] == o[i] && n[j] == o[j]);
        } else if j == k {
            assert(n[i] == o[i]);
            assert(!link_lt(x, o[i]));
        } else if i == k {
            assert(n[j] == o[j - 1]);
            assert(k < o.len());
            assert(link_lt(x, o[k]));
            lemma_link_lt_order(o[j - 1], x, o[k]);
            lemma_link_lt_order(o[k], o[k], o[k]);
        } else if i < k {
            assert(n[i] == o[i] && n[j] == o[j - 1]);
        } else {
            assert(n[i] == o[i - 1] && n[j] == o[j - 1]);
        }
    }
}

proof fn lemma_insert_pos_before(o: Seq<LinkView>, x: LinkView, i: int)
    requires
        0 <= i <= o.len(),
    ensures
        forall|m: int| i <= m < insert_pos(o, x, i) ==> !link_lt(x, #[trigger] o[m]),
        insert_pos(o, x, i) < o.len() ==> link_lt(x, o[insert_pos(o, x, i)]),
    decreases o.len() - i,
{
    if i < o.len() && !link_lt(x, o[i]) {
        lemma_insert_pos_before(o, x, i + 1);
    }
}

/// Links come out of the sort in order of line, then column, then path:
/// no link comes before one earlier in the result.
pub proof fn law_sorted_links_are_ordered(s: Seq<LinkView>)
    ensures
        links_ordered(sort_links(s)),
    decreases s.len(),
{
    if s.len() > 0 {
        law_sorted_links_are_ordered(s.drop_last());
        lemma_insert_ordered(sort_links(s.drop_last()), s.last());
    }
}

proof fn lemma_dedup_props(o: Seq<LinkView>)
    ensures
        forall|i: int, j: int|
            0 <= i < j < dedup_spec(o).len() ==> !same_link(
                #[trigger] dedup_spec(o)[i],
                #[trigger] dedup_spec(o)[j],
            ),
        forall|k: int| 0 <= k < o.len() ==> has_key(dedup_spec(o), #[trigger] o[k]),
        forall|i: int|
            0 <= i < dedup_spec(o).len() ==> exists|k: int|
                0 <= k < o.len() && #[trigger] dedup_spec(o)[i] == o[k],
        links_ordered(o) ==> links_ordered(dedup_spec(o)),
    decreases o.len(),
{
    if o.len() > 0 {
        let p = o.drop_last();
        lemma_dedup_props(p);
        let d = dedup_spec(p);
        let r = dedup_spec(o);
        let x = o.last();
        if links_ordered(o) {
            assert(links_ordered(p)) by {
                assert forall|i: int, j: int| 0 <= i < j < p.len() implies !link_lt(#[trigger] p[j], #[trigger] p[i]) by {
                    assert(p[i] == o[i] && p[j] == o[j]);
                }
            }
        }
        assert forall|k: int| 0 <= k < o.len() implies has_key(r, #[trigger] o[k]) by {
            if k < p.len() {
                assert(o[k] == p[k]);
                assert(has_key(d, p[k]));
                let w = choose|w: int| 0 <= w < d.len() && same_link(#[trigger] d[w], p[k]);
                assert(r[w] == d[w]);
            } else if !has_key(d, x) {
                assert(r[d.len() as int] == x);
                assert(same_link(r[d.len() as int], x));
            }
        }
        assert forall|i: int| 0 <= i < r.len() implies exists|k: int| 0 <= k < o.len() && #[trigger] r[i] == o[k] by {
            if i < d.len() {
                let k = choose|k: int| 0 <= k < p.len() && #[trigger] d[i] == p[k];
                assert(r[i] == d[i] && o[k] == p[k]);
            } else {
                assert(r[i] == o[o.len() - 1]);
            }
        }
        if !has_key(d, x) {
            assert forall|i: int, j: int| 0 <= i < j < r.len() implies !same_link(#[trigger] r[i], #[trigger] r[j]) by {
                if j < d.len() {
                    assert(r[i] == d[i] && r[j] == d[j]);
                } else {
                    assert(r[i] == d[i] && r[j] == x);
                    if same_link(d[i], x) {
                        assert(has_key(d, x));
                    }
                }
            }
            if links_ordered(o) {
                assert forall|i: int, j: int| 0 <= i < j < r.len() implies !link_lt(#[trigger] r[j], #[trigger] r[i]) by {
                    if j < d.len() {
                        assert(r[i] == d[i] && r[j] == d[j]);
                    } else {
                        assert(r[i] == d[i] && r[j] == x);
                        let k = choose|k: int| 0 <= k < p.len() && #[trigger] d[i] == p[k];
                        assert(o[k] == p[k]);
                        assert(x == o[o.len() - 1]);
                    }
                }
            }
        }
    }
}

proof fn lemma_sort_elements(s: Seq<LinkView>)
    ensures
        sort_links(s).len() == s.len(),
        forall|k: int| 0 <= k < s.len() ==> sort_links(s).contains(#[trigger] s[k]),
        forall|i: int| 0 <= i < sort_links(s).len() ==> s.contains(#[trigger] sort_links(s)[i]),
    decreases s.len(),
{
    if s.len() > 0 {
        let p = s.drop_last();
        lemma_sort_elements(p);
        let o = sort_links(p);
        let x = s.last();
        lemma_insert_pos(o, x, 0);
        let q = insert_pos(o, x, 0);
        let n = o.insert(q, x);
        assert(n[q] == x);
        assert forall|k: int| 0 <= k < s.len() implies n.contains(#[trigger] s[k]) by {
            if k < p.len() {
                assert(s[k] == p[k]);
                let i = choose|i: int| 0 <= i < o.len() && o[i] == p[k];
                if i < q {
                    assert(n[i] == o[i]);
                } else {
                    assert(n[i + 1] == o[i]);
                }
            }
        }
        assert forall|i: int| 0 <= i < n.len() implies s.contains(#[trigger] n[i]) by {
            if i == q {
                assert(s[s.len() - 1] == x);
            } else {
                let j = if i < q { i } else { i - 1 };
                assert(n[i] == o[j]);
                let k = choose|k: int| 0 <= k < p.len() && p[k] == o[j];
                assert(s[k] == p[k]);
            }
        }
    }
}

/// Deduplication keeps one link per key: the links `dedup_links` returns
/// come in (line, column, path) order, no two share (path, fragment,
/// line), each is one of the input links, and every input link's key is
/// among them.
pub proof fn law_dedup_links_by_key(s: Seq<LinkView>)
    ensures
        links_ordered(dedup_spec(sort_links(s))),
        forall|i: int, j: int|
            0 <= i < j < dedup_spec(sort_links(s)).len() ==> !same_link(
                #[trigger] dedup_spec(sort_links(s))[i],
                #[trigger] dedup_spec(sort_links(s))[j],
            ),
        forall|i: int| 0 <= i < dedup_spec(sort_links(s)).len() ==> s.contains(#[trigger] dedup_spec(sort_links(s))[i]),
        forall|k: int| 0 <= k < s.len() ==> has_key(dedup_spec(sort_links(s)), #[trigger] s[k]),
{
    let o = sort_links(s);
    law_sorted_links_are_ordered(s);
    lemma_sort_elements(s);
    lemma_dedup_props(o);
    let d = dedup_spec(o);
    assert forall|i: int| 0 <= i < d.len() implies s.contains(#[trigger] d[i]) by {
        let k = choose|k: int| 0 <= k < o.len() && #[trigger] d[i] == o[k];
        assert(s.contains(o[k]));
    }
    assert forall|k: int| 0 <= k < s.len() implies has_key(d, #[trigger] s[k]) by {
        assert(o.contains(s[k]));
        let i = choose|i: int| 0 <= i < o.len() && o[i] == s[k];
        assert(has_key(d, o[i]));
    }
}

} // verus!
