//! What the store computes around its SQL: the rows it keeps for regions,
//! the pattern a search uses, the node paths it reads back, and the
//! changelog entries a walk diff appends.
//!
//! The SQLite schema is the IR contract: projectors in any language read
//! its tables. The statements themselves run in the program around this
//! library.

use vstd::prelude::*;
use vstd::string::StringExecFns;
use crate::paths::is_absolute;
use crate::text::{chars_of, string_lit};
use crate::types::{NodePath, Region, WalkDiff, paths_view, prose_view};

verus! {

/// `parts` joined with `sep` between each two, as `[..].join(sep)`.
pub open spec fn join_with(parts: Seq<Seq<char>>, sep: Seq<char>) -> Seq<char>
    decreases parts.len(),
{
    if parts.len() == 0 {
        seq![]
    } else if parts.len() == 1 {
        parts[0]
    } else {
        join_with(parts.drop_last(), sep) + sep + parts.last()
    }
}

/// The prose a region row stores: the region's prose blocks joined by a
/// blank line, or nothing when that text is empty.
pub open spec fn region_prose_text(r: Seq<Seq<char>>) -> Option<Seq<char>> {
    let t = join_with(r, "\n\n"@);
    if t.len() == 0 {
        None
    } else {
        Some(t)
    }
}

/// The prose column of a region's row.
pub fn region_prose(region: &Region) -> (r: Option<String>)
    ensures
        match r {
            Some(t) => region_prose_text(prose_view(region.prose@).map_values(|b: crate::types::ProseView| b.content))
                == Some(t@),
            None => region_prose_text(prose_view(region.prose@).map_values(|b: crate::types::ProseView| b.content))
                is None,
        },
{
    let ghost parts = prose_view(region.prose@).map_values(|b: crate::types::ProseView| b.content);
    let mut t = String::new();
    let mut i: usize = 0;
    while i < region.prose.len()
        invariant
            parts == prose_view(region.prose@).map_values(|b: crate::types::ProseView| b.content),
            i <= region.prose@.len(),
            t@ == join_with(parts.take(i as int), "\n\n"@),
        decreases region.prose@.len() - i,
    {
        proof {
            assert(parts.take(i + 1).drop_last() =~= parts.take(i as int));
            assert(parts.take(i + 1).last() == region.prose@[i as int].content@);
        }
        if i > 0 {
            t.append("\n\n");
        }
        t.append(region.prose[i].content.as_str());
        proof {
            if i == 0 {
                assert(parts.take(1) =~= seq![parts[0]]);
                assert(t@ =~= parts[0]);
            } else {
                assert(t@ =~= join_with(parts.take(i as int), "\n\n"@) + "\n\n"@ + parts[i as int]);
            }
        }
        i = i + 1;
    }
    proof {
        assert(parts.take(i as int) =~= parts);
    }
    if t.as_str().is_empty() {
        None
    } else {
        Some(t)
    }
}

/// The characters that LIKE gives a meaning: the wildcards `%` and `_`,
/// and `\\`, the escape character the search declares.
pub open spec fn like_special(c: char) -> bool {
    c == '%' || c == '_' || c == '\\'
}

/// `q` with each special character preceded by `\\`, so that LIKE reads it
/// as itself.
pub open spec fn escape_like(q: Seq<char>) -> Seq<char>
    decreases q.len(),
{
    if q.len() == 0 {
        seq![]
    } else {
        escape_like(q.drop_last()) + if like_special(q.last()) {
            seq!['\\', q.last()]
        } else {
            seq![q.last()]
        }
    }
}

/// How LIKE, with `\\` as its escape character, reads a pattern that holds
/// no wildcard: the text it stands for (each `\\` makes the character after
/// it stand for itself), or `None` when an unescaped `%` or `_` (or a
/// trailing `\\`) makes it more than a text.
pub open spec fn like_literal(e: Seq<char>) -> Option<Seq<char>>
    decreases e.len(),
{
    if e.len() == 0 {
        Some(seq![])
    } else if e[0] == '\\' {
        if e.len() >= 2 {
            match like_literal(e.skip(2)) {
                Some(r) => Some(seq![e[1]] + r),
                None => None,
            }
        } else {
            None
        }
    } else if e[0] == '%' || e[0] == '_' {
        None
    } else {
        match like_literal(e.drop_first()) {
            Some(r) => Some(seq![e[0]] + r),
            None => None,
        }
    }
}

proof fn lemma_like_literal_append(a: Seq<char>, b: Seq<char>)
    requires
        like_literal(a) is Some,
        like_literal(b) is Some,
    ensures
        like_literal(a + b) == Some(like_literal(a)->0 + like_literal(b)->0),
    decreases a.len(),
{
    if a.len() == 0 {
        assert(a + b =~= b);
        assert(like_literal(a)->0 + like_literal(b)->0 =~= like_literal(b)->0);
    } else if a[0] == '\\' {
        assert((a + b)[0] == a[0] && (a + b)[1] == a[1]);
        assert((a + b).skip(2) =~= a.skip(2) + b);
        lemma_like_literal_append(a.skip(2), b);
        assert(seq![a[1]] + (like_literal(a.skip(2))->0 + like_literal(b)->0) =~= (seq![a[1]] + like_literal(
            a.skip(2),
        )->0) + like_literal(b)->0);
    } else {
        assert((a + b)[0] == a[0]);
        assert((a + b).drop_first() =~= a.drop_first() + b);
        lemma_like_literal_append(a.drop_first(), b);
        assert(seq![a[0]] + (like_literal(a.drop_first())->0 + like_literal(b)->0) =~= (seq![a[0]]
            + like_literal(a.drop_first())->0) + like_literal(b)->0);
    }
}

/// LIKE reads the escaped query as exactly the query: no character of the
/// query acts as a wildcard, and none is lost, so the pattern `%q%` finds
/// exactly the paths that contain `q` as written.
pub proof fn law_escaped_query_reads_as_itself(q: Seq<char>)
    ensures
        like_literal(escape_like(q)) == Some(q),
    decreases q.len(),
{
    if q.len() > 0 {
        law_escaped_query_reads_as_itself(q.drop_last());
        let c = q.last();
        let piece = if like_special(c) {
            seq!['\\', c]
        } else {
            seq![c]
        };
        if like_special(c) {
            assert(piece.skip(2) =~= Seq::<char>::empty());
            assert(piece[0] == '\\' && piece[1] == c);
            assert(like_literal(Seq::<char>::empty()) == Some(Seq::<char>::empty()));
            assert(seq![c] + Seq::<char>::empty() =~= seq![c]);
            assert(like_literal(piece) == Some(seq![c]));
        } else {
            assert(piece.drop_first() =~= Seq::<char>::empty());
            assert(piece[0] == c);
            assert(like_literal(Seq::<char>::empty()) == Some(Seq::<char>::empty()));
            assert(seq![c] + Seq::<char>::empty() =~= seq![c]);
            assert(like_literal(piece) == Some(seq![c]));
        }
        lemma_like_literal_append(escape_like(q.drop_last()), piece);
        assert(q.drop_last() + seq![c] =~= q);
    }
}

/// The LIKE pattern (with `\\` as its escape character) that finds the
/// paths containing `query` as written: the query escaped, between `%`s.
pub fn like_pattern(query: &str) -> (r: String)
    ensures
        r@ == seq!['%'] + escape_like(query@) + seq!['%'],
{
    let q = chars_of(query);
    let mut p = String::new();
    p.push('%');
    let mut i: usize = 0;
    while i < q.len()
        invariant
            i <= q@.len(),
            q@ == query@,
            p@ == seq!['%'] + escape_like(q@.take(i as int)),
        decreases q@.len() - i,
    {
        let c = q[i];
        proof {
            assert(q@.take(i + 1).drop_last() =~= q@.take(i as int));
        }
        if c == '%' || c == '_' || c == '\\' {
            p.push('\\');
        }
        p.push(c);
        proof {
            assert(p@ =~= seq!['%'] + escape_like(q@.take(i + 1)));
        }
        i = i + 1;
    }
    p.push('%');
    proof {
        assert(q@.take(i as int) =~= q@);
    }
    p
}

/// The node paths of stored path rows: rows that are not absolute make no
/// node and are dropped.
pub open spec fn node_rows(rows: Seq<Seq<char>>) -> Seq<Seq<char>> {
    rows.filter_map(
        |p: Seq<char>|
            if is_absolute(p) {
                Some(p)
            } else {
                None
            },
    )
}

/// Read path rows back as node paths.
pub fn node_paths(rows: Vec<String>) -> (r: Vec<NodePath>)
    ensures
        paths_view(r@) == node_rows(rows@.map_values(|s: String| s@)),
{
    let ghost rv = rows@.map_values(|s: String| s@);
    let mut r: Vec<NodePath> = Vec::new();
    let n = rows.len();
    let mut i: usize = 0;
    while i < n
        invariant
            n == rv.len(),
            rv == rows@.map_values(|s: String| s@),
            i <= n,
            paths_view(r@) == node_rows(rv.take(i as int)),
        decreases n - i,
    {
        proof {
            assert(rv.take(i + 1).drop_last() =~= rv.take(i as int));
            assert(rv.take(i + 1).last() == rows@[i as int]@);
        }
        match NodePath::from_absolute(rows[i].clone()) {
            Some(p) => {
                let ghost before = r@;
                r.push(p);
                proof {
                    assert(paths_view(r@) =~= paths_view(before) + seq![rv[i as int]]);
                }
            },
            None => {},
        }
        i = i + 1;
    }
    proof {
        assert(rv.take(i as int) =~= rv);
    }
    r
}

/// One changelog row: an action (`added` or `removed`) on a kind (`node`
/// or `edge`), its path, and for an edge its target.
#[derive(Debug)]
pub struct ChangelogEntry {
    pub action: String,
    pub kind: String,
    pub path_a: String,
    pub path_b: Option<String>,
}

/// A changelog row as plain values.
pub struct EntryView {
    pub action: Seq<char>,
    pub kind: Seq<char>,
    pub path_a: Seq<char>,
    pub path_b: Option<Seq<char>>,
}

impl View for ChangelogEntry {
    type V = EntryView;

    open spec fn view(&self) -> EntryView {
        EntryView {
            action: self.action@,
            kind: self.kind@,
            path_a: self.path_a@,
            path_b: match self.path_b {
                Some(b) => Some(b@),
                None => None,
            },
        }
    }
}

/// The views of changelog rows.
pub open spec fn entries_view(v: Seq<ChangelogEntry>) -> Seq<EntryView> {
    v.map_values(|e: ChangelogEntry| e@)
}

/// The row recording that a node was added or removed.
pub open spec fn node_entry(action: Seq<char>, path: Seq<char>) -> EntryView {
    EntryView { action, kind: "node"@, path_a: path, path_b: None }
}

/// The row recording that an edge was added or removed.
pub open spec fn edge_entry(action: Seq<char>, from: Seq<char>, to: Seq<char>) -> EntryView {
    EntryView { action, kind: "edge"@, path_a: from, path_b: Some(to) }
}

/// The node rows a walk diff appends: one `added` row per added file, then
/// one `removed` row per removed path, in order.
pub open spec fn node_changelog_spec(added: Seq<Seq<char>>, removed: Seq<Seq<char>>) -> Seq<EntryView> {
    added.map_values(|p: Seq<char>| node_entry("added"@, p)) + removed.map_values(
        |p: Seq<char>| node_entry("removed"@, p),
    )
}

/// The edge rows appended for added and removed edges, in order.
pub open spec fn edge_changelog_spec(
    added: Seq<(Seq<char>, Seq<char>)>,
    removed: Seq<(Seq<char>, Seq<char>)>,
) -> Seq<EntryView> {
    added.map_values(|e: (Seq<char>, Seq<char>)| edge_entry("added"@, e.0, e.1)) + removed.map_values(
        |e: (Seq<char>, Seq<char>)| edge_entry("removed"@, e.0, e.1),
    )
}

/// Append `action`/`kind` rows for `paths` to `out`.
fn push_node_rows(out: &mut Vec<ChangelogEntry>, action: &str, paths: &Vec<NodePath>)
    ensures
        entries_view(final(out)@) == entries_view(old(out)@) + paths_view(paths@).map_values(
            |p: Seq<char>| node_entry(action@, p),
        ),
{
    let ghost start = entries_view(out@);
    let ghost f = |p: Seq<char>| node_entry(action@, p);
    let mut i: usize = 0;
    while i < paths.len()
        invariant
            f == |p: Seq<char>| node_entry(action@, p),
            i <= paths@.len(),
            entries_view(out@) == start + paths_view(paths@).take(i as int).map_values(f),
        decreases paths@.len() - i,
    {
        let ghost before = out@;
        out.push(
            ChangelogEntry {
                action: string_lit(action),
                kind: string_lit("node"),
                path_a: string_lit(paths[i].as_str()),
                path_b: None,
            },
        );
        proof {
            assert(entries_view(out@) =~= entries_view(before).push(f(paths@[i as int]@)));
            assert(paths_view(paths@).take(i + 1).map_values(f) =~= paths_view(paths@).take(
                i as int,
            ).map_values(f).push(f(paths@[i as int]@)));
        }
        i = i + 1;
    }
    proof {
        assert(paths_view(paths@).take(i as int) =~= paths_view(paths@));
    }
}

/// The node changelog rows for a walk diff.
pub fn node_changelog(diff: &WalkDiff) -> (r: Vec<ChangelogEntry>)
    ensures
        entries_view(r@) == node_changelog_spec(
            diff@.added.map_values(|f: crate::types::WalkedFileView| f.path),
            diff@.removed,
        ),
{
    let mut added: Vec<NodePath> = Vec::new();
    let mut i: usize = 0;
    while i < diff.added.len()
        invariant
            i <= diff.added@.len(),
            paths_view(added@) == diff@.added.map_values(|f: crate::types::WalkedFileView| f.path).take(
                i as int,
            ),
        decreases diff.added@.len() - i,
    {
        let ghost before = added@;
        added.push(diff.added[i].path.clone());
        proof {
            assert(paths_view(added@) =~= paths_view(before).push(diff.added@[i as int].path@));
        }
        i = i + 1;
    }
    let mut out: Vec<ChangelogEntry> = Vec::new();
    push_node_rows(&mut out, "added", &added);
    push_node_rows(&mut out, "removed", &diff.removed);
    proof {
        assert(diff@.added.map_values(|f: crate::types::WalkedFileView| f.path).take(i as int)
            =~= diff@.added.map_values(|f: crate::types::WalkedFileView| f.path));
        assert(entries_view(out@) =~= node_changelog_spec(
            diff@.added.map_values(|f: crate::types::WalkedFileView| f.path),
            diff@.removed,
        ));
    }
    out
}

/// Append `action` edge rows for `edges` to `out`.
fn push_edge_rows(out: &mut Vec<ChangelogEntry>, action: &str, edges: &[(NodePath, NodePath)])
    ensures
        entries_view(final(out)@) == entries_view(old(out)@) + pairs_of(edges@).map_values(
            |e: (Seq<char>, Seq<char>)| edge_entry(action@, e.0, e.1),
        ),
{
    let ghost start = entries_view(out@);
    let ghost f = |e: (Seq<char>, Seq<char>)| edge_entry(action@, e.0, e.1);
    let ghost ps = pairs_of(edges@);
    let mut i: usize = 0;
    while i < edges.len()
        invariant
            f == |e: (Seq<char>, Seq<char>)| edge_entry(action@, e.0, e.1),
            ps == pairs_of(edges@),
            i <= edges@.len(),
            entries_view(out@) == start + ps.take(i as int).map_values(f),
        decreases edges@.len() - i,
    {
        let ghost before = out@;
        out.push(
            ChangelogEntry {
                action: string_lit(action),
                kind: string_lit("edge"),
                path_a: string_lit(edges[i].0.as_str()),
                path_b: Some(string_lit(edges[i].1.as_str())),
            },
        );
        proof {
            assert(entries_view(out@) =~= entries_view(before).push(f(ps[i as int])));
            assert(ps.take(i + 1).map_values(f) =~= ps.take(i as int).map_values(f).push(f(ps[i as int])));
        }
        i = i + 1;
    }
    proof {
        assert(ps.take(i as int) =~= ps);
    }
}

/// The `(from, to)` paths of edge pairs.
pub open spec fn pairs_of(v: Seq<(NodePath, NodePath)>) -> Seq<(Seq<char>, Seq<char>)> {
    v.map_values(|e: (NodePath, NodePath)| (e.0@, e.1@))
}

/// The edge changelog rows for added and removed edges.
pub fn edge_changelog(
    added_edges: &[(NodePath, NodePath)],
    removed_edges: &[(NodePath, NodePath)],
) -> (r: Vec<ChangelogEntry>)
    ensures
        entries_view(r@) == edge_changelog_spec(pairs_of(added_edges@), pairs_of(removed_edges@)),
{
    let mut out: Vec<ChangelogEntry> = Vec::new();
    push_edge_rows(&mut out, "added", added_edges);
    push_edge_rows(&mut out, "removed", removed_edges);
    proof {
        assert(entries_view(out@) =~= edge_changelog_spec(pairs_of(added_edges@), pairs_of(removed_edges@)));
    }
    out
}

/// The incoming edges read back: `(source, fragment)` rows whose source is
/// not absolute make no node and are dropped.
pub open spec fn incoming_rows(rows: Seq<(Seq<char>, Option<Seq<char>>)>) -> Seq<(Seq<char>, Option<Seq<char>>)> {
    rows.filter_map(
        |r: (Seq<char>, Option<Seq<char>>)|
            if is_absolute(r.0) {
                Some(r)
            } else {
                None
            },
    )
}

/// Read `(source, fragment)` rows back as incoming edges.
pub fn incoming_edges(rows: Vec<(String, Option<String>)>) -> (r: Vec<(NodePath, Option<String>)>)
    ensures
        r@.map_values(|e: (NodePath, Option<String>)| (e.0@, crate::types::opt_string(e.1)))
            == incoming_rows(rows@.map_values(|e: (String, Option<String>)| (e.0@, crate::types::opt_string(e.1)))),
{
    let ghost rv = rows@.map_values(|e: (String, Option<String>)| (e.0@, crate::types::opt_string(e.1)));
    let mut r: Vec<(NodePath, Option<String>)> = Vec::new();
    let mut i: usize = 0;
    while i < rows.len()
        invariant
            rv == rows@.map_values(|e: (String, Option<String>)| (e.0@, crate::types::opt_string(e.1))),
            i <= rows@.len(),
            r@.map_values(|e: (NodePath, Option<String>)| (e.0@, crate::types::opt_string(e.1)))
                == incoming_rows(rv.take(i as int)),
        decreases rows@.len() - i,
    {
        proof {
            assert(rv.take(i + 1).drop_last() =~= rv.take(i as int));
            assert(rv.take(i + 1).last() == rv[i as int]);
        }
        match NodePath::from_absolute(rows[i].0.clone()) {
            Some(p) => {
                let frag = match &rows[i].1 {
                    Some(f) => Some(f.clone()),
                    None => None,
                };
                let ghost before = r@;
                r.push((p, frag));
                proof {
                    assert(r@.map_values(|e: (NodePath, Option<String>)| (e.0@, crate::types::opt_string(e.1)))
                        =~= before.map_values(|e: (NodePath, Option<String>)| (e.0@, crate::types::opt_string(e.1)))
                        + seq![rv[i as int]]);
                }
            },
            None => {},
        }
        i = i + 1;
    }
    proof {
        assert(rv.take(i as int) =~= rv);
    }
    r
}

} // verus!
