//! The collect pipeline: walk, diff, extract, store.
//!
//! Files on disk are walked and hashed, their links, regions and
//! frontmatter extracted, and the result stored. The diff makes it
//! incremental: only added and changed files are extracted again. The
//! pipeline is the same for every directory, whatever the files hold; the
//! extractors handle the formats, and the pipeline decides what is
//! extracted, what is written and what is reported.

use vstd::prelude::*;
use crate::db::{ChangelogEntry, EntryView, entries_view};
use crate::errors::warnings_view;
use crate::extract::ExtractionResult;
use crate::types::{
    Attribute, AttributeView, Edge, EdgeView, Extracted, NodePath, Region, RegionView, Root, RootView,
    WalkDiff, WalkDiffView, WalkedFile, WalkedFileView, attributes_view, edges_view, files_view,
    paths_view, regions_view, roots_view, strings_view,
};
use crate::paths::is_absolute;
use crate::walk::WalkResult;
use crate::walk::diff::{
    diff_spec, keep_added, keep_changed, keep_removed, law_diff_partitions, recorded_hash, walked_paths,
};

verus! {

/// Report from a collect run.
#[derive(Debug)]
pub struct CollectReport {
    pub roots_discovered: usize,
    pub files_added: usize,
    pub files_removed: usize,
    pub files_changed: usize,
    pub files_unchanged: usize,
    pub edges_added: usize,
    pub warnings: usize,
    pub broken_edges: usize,
}

/// The removed paths that edges resolved to before: each one is a broken
/// edge (the target existed and was removed).
pub open spec fn broken_spec(removed: Seq<Seq<char>>, resolved: Seq<Seq<char>>) -> Seq<Seq<char>> {
    removed.filter_map(
        |p: Seq<char>|
            if resolved.contains(p) {
                Some(p)
            } else {
                None
            },
    )
}

/// Whether `v` holds the text of `p`.
fn has_path(v: &[String], p: &NodePath) -> (r: bool)
    ensures
        r == strings_view(v@).contains(p@),
{
    let ghost sv = strings_view(v@);
    let mut i: usize = 0;
    while i < v.len()
        invariant
            sv == strings_view(v@),
            i <= v@.len(),
            forall|k: int| 0 <= k < i ==> sv[k] != p@,
        decreases v@.len() - i,
    {
        if p.is_str(&v[i]) {
            proof {
                assert(sv[i as int] == p@);
            }
            return true;
        }
        i = i + 1;
    }
    false
}

/// The removed paths that previously resolved edges pointed to; the
/// previously resolved targets form a set, each named once.
pub fn broken_edges(removed: &Vec<NodePath>, previously_resolved: &[String]) -> (r: Vec<NodePath>)
    requires
        strings_view(previously_resolved@).no_duplicates(),
    ensures
        paths_view(r@) == broken_spec(paths_view(removed@), strings_view(previously_resolved@)),
{
    let ghost rv = paths_view(removed@);
    let ghost res = strings_view(previously_resolved@);
    let mut r: Vec<NodePath> = Vec::new();
    let mut i: usize = 0;
    while i < removed.len()
        invariant
            rv == paths_view(removed@),
            res == strings_view(previously_resolved@),
            i <= removed@.len(),
            paths_view(r@) == broken_spec(rv.take(i as int), res),
        decreases removed@.len() - i,
    {
        proof {
            assert(rv.take(i + 1).drop_last() =~= rv.take(i as int));
            assert(rv.take(i + 1).last() == removed@[i as int]@);
        }
        if has_path(previously_resolved, &removed[i]) {
            let ghost before = r@;
            r.push(removed[i].clone());
            proof {
                assert(paths_view(r@) =~= paths_view(before) + seq![rv[i as int]]);
            }
        }
        i = i + 1;
    }
    proof {
        assert(rv.take(i as int) =~= rv);
    }
    r
}

/// Append copies of `v` to `out`.
fn push_files(out: &mut Vec<WalkedFile>, v: &Vec<WalkedFile>)
    ensures
        files_view(final(out)@) == files_view(old(out)@) + files_view(v@),
{
    let ghost start = files_view(out@);
    let mut i: usize = 0;
    while i < v.len()
        invariant
            i <= v@.len(),
            files_view(out@) == start + files_view(v@).take(i as int),
        decreases v@.len() - i,
    {
        let ghost before = out@;
        out.push(v[i].clone());
        proof {
            assert(files_view(out@) =~= files_view(before).push(v@[i as int]@));
            assert(files_view(v@).take(i + 1) =~= files_view(v@).take(i as int).push(v@[i as int]@));
        }
        i = i + 1;
    }
    proof {
        assert(files_view(v@).take(i as int) =~= files_view(v@));
    }
}

/// The files to extract: the added files, then the changed ones.
pub fn files_to_extract(diff: &WalkDiff) -> (r: Vec<WalkedFile>)
    ensures
        files_view(r@) == diff@.added + diff@.changed,
{
    let mut r: Vec<WalkedFile> = Vec::new();
    push_files(&mut r, &diff.added);
    push_files(&mut r, &diff.changed);
    proof {
        assert(files_view(r@) =~= diff@.added + diff@.changed);
    }
    r
}

/// The edges of the extracted files, file by file.
pub open spec fn all_edges(x: Seq<Extracted>) -> Seq<EdgeView>
    decreases x.len(),
{
    if x.len() == 0 {
        seq![]
    } else {
        all_edges(x.drop_last()) + edges_view(x.last().edges@)
    }
}

/// The regions of the extracted files, file by file.
pub open spec fn all_regions(x: Seq<Extracted>) -> Seq<RegionView>
    decreases x.len(),
{
    if x.len() == 0 {
        seq![]
    } else {
        all_regions(x.drop_last()) + regions_view(x.last().regions@)
    }
}

/// The attributes of the extracted files, file by file.
pub open spec fn all_attributes(x: Seq<Extracted>) -> Seq<AttributeView>
    decreases x.len(),
{
    if x.len() == 0 {
        seq![]
    } else {
        all_attributes(x.drop_last()) + attributes_view(x.last().attributes@)
    }
}

/// Everything extracted, in one list per kind.
pub struct Flattened {
    pub edges: Vec<Edge>,
    pub regions: Vec<Region>,
    pub attributes: Vec<Attribute>,
}

/// Flatten the extracted data of all files.
pub fn flatten(extracted: &[Extracted]) -> (r: Flattened)
    ensures
        edges_view(r.edges@) == all_edges(extracted@),
        regions_view(r.regions@) == all_regions(extracted@),
        attributes_view(r.attributes@) == all_attributes(extracted@),
{
    let mut edges: Vec<Edge> = Vec::new();
    let mut regions: Vec<Region> = Vec::new();
    let mut attributes: Vec<Attribute> = Vec::new();
    let mut i: usize = 0;
    while i < extracted.len()
        invariant
            i <= extracted@.len(),
            edges_view(edges@) == all_edges(extracted@.take(i as int)),
            regions_view(regions@) == all_regions(extracted@.take(i as int)),
            attributes_view(attributes@) == all_attributes(extracted@.take(i as int)),
        decreases extracted@.len() - i,
    {
        let x = &extracted[i];
        proof {
            assert(extracted@.take(i + 1).drop_last() =~= extracted@.take(i as int));
            assert(extracted@.take(i + 1).last() == *x);
        }
        let mut j: usize = 0;
        let ghost e0 = edges_view(edges@);
        while j < x.edges.len()
            invariant
                j <= x.edges@.len(),
                edges_view(edges@) == e0 + edges_view(x.edges@).take(j as int),
            decreases x.edges@.len() - j,
        {
            let ghost before = edges@;
            edges.push(x.edges[j].clone());
            proof {
                assert(edges_view(edges@) =~= edges_view(before).push(x.edges@[j as int]@));
                assert(edges_view(x.edges@).take(j + 1) =~= edges_view(x.edges@).take(j as int).push(
                    x.edges@[j as int]@,
                ));
            }
            j = j + 1;
        }
        proof {
            assert(edges_view(x.edges@).take(j as int) =~= edges_view(x.edges@));
        }
        let mut j: usize = 0;
        let ghost r0 = regions_view(regions@);
        while j < x.regions.len()
            invariant
                j <= x.regions@.len(),
                regions_view(regions@) == r0 + regions_view(x.regions@).take(j as int),
            decreases x.regions@.len() - j,
        {
            let ghost before = regions@;
            regions.push(x.regions[j].clone());
            proof {
                assert(regions_view(regions@) =~= regions_view(before).push(x.regions@[j as int]@));
                assert(regions_view(x.regions@).take(j + 1) =~= regions_view(x.regions@).take(
                    j as int,
                ).push(x.regions@[j as int]@));
            }
            j = j + 1;
        }
        proof {
            assert(regions_view(x.regions@).take(j as int) =~= regions_view(x.regions@));
        }
        let mut j: usize = 0;
        let ghost a0 = attributes_view(attributes@);
        while j < x.attributes.len()
            invariant
                j <= x.attributes@.len(),
                attributes_view(attributes@) == a0 + attributes_view(x.attributes@).take(j as int),
            decreases x.attributes@.len() - j,
        {
            let ghost before = attributes@;
            attributes.push(x.attributes[j].clone());
            proof {
                assert(attributes_view(attributes@) =~= attributes_view(before).push(
                    x.attributes@[j as int]@,
                ));
                assert(attributes_view(x.attributes@).take(j + 1) =~= attributes_view(
                    x.attributes@,
                ).take(j as int).push(x.attributes@[j as int]@));
            }
            j = j + 1;
        }
        proof {
            assert(attributes_view(x.attributes@).take(j as int) =~= attributes_view(x.attributes@));
        }
        i = i + 1;
    }
    proof {
        assert(extracted@.take(i as int) =~= extracted@);
    }
    Flattened { edges, regions, attributes }
}

/// The root paths stored before that no walked root has: they are stale.
pub open spec fn stale_spec(previous: Seq<Seq<char>>, roots: Seq<RootView>) -> Seq<Seq<char>> {
    previous.filter_map(
        |p: Seq<char>|
            if !roots.map_values(|r: RootView| r.path).contains(p) {
                Some(p)
            } else {
                None
            },
    )
}

/// Whether a walked root has the path `p`.
fn has_root(roots: &[Root], p: &String) -> (r: bool)
    ensures
        r == roots_view(roots@).map_values(|r: RootView| r.path).contains(p@),
{
    let ghost ps = roots_view(roots@).map_values(|r: RootView| r.path);
    let mut i: usize = 0;
    while i < roots.len()
        invariant
            ps == roots_view(roots@).map_values(|r: RootView| r.path),
            i <= roots@.len(),
            forall|k: int| 0 <= k < i ==> ps[k] != p@,
        decreases roots@.len() - i,
    {
        if roots[i].path.is_str(p) {
            proof {
                assert(ps[i as int] == p@);
            }
            return true;
        }
        i = i + 1;
    }
    false
}

/// The stored root paths that the walk no longer finds; the stored root
/// paths form a set, each named once.
pub fn stale_roots(previous_roots: &[String], roots: &[Root]) -> (r: Vec<String>)
    requires
        strings_view(previous_roots@).no_duplicates(),
    ensures
        strings_view(r@) == stale_spec(strings_view(previous_roots@), roots_view(roots@)),
{
    let ghost pv = strings_view(previous_roots@);
    let ghost rv = roots_view(roots@);
    let mut r: Vec<String> = Vec::new();
    let mut i: usize = 0;
    while i < previous_roots.len()
        invariant
            pv == strings_view(previous_roots@),
            rv == roots_view(roots@),
            i <= previous_roots@.len(),
            strings_view(r@) == stale_spec(pv.take(i as int), rv),
        decreases previous_roots@.len() - i,
    {
        proof {
            assert(pv.take(i + 1).drop_last() =~= pv.take(i as int));
            assert(pv.take(i + 1).last() == previous_roots@[i as int]@);
        }
        if !has_root(roots, &previous_roots[i]) {
            let ghost before = r@;
            r.push(previous_roots[i].clone());
            proof {
                assert(strings_view(r@) =~= strings_view(before) + seq![pv[i as int]]);
            }
        }
        i = i + 1;
    }
    proof {
        assert(pv.take(i as int) =~= pv);
    }
    r
}

/// The report of a collect run: the roots walked, the files added,
/// removed, changed and unchanged, the edges extracted, the warnings of
/// the walk and of the extraction, and the broken edges.
pub open spec fn report_matches(
    r: CollectReport,
    walk: WalkResult,
    diff: WalkDiffView,
    extraction: ExtractionResult,
    edges_added: nat,
    broken: nat,
) -> bool {
    &&& r.roots_discovered == walk.roots@.len()
    &&& r.files_added == diff.added.len()
    &&& r.files_removed == diff.removed.len()
    &&& r.files_changed == diff.changed.len()
    &&& r.files_unchanged == diff.unchanged.len()
    &&& r.edges_added == edges_added
    &&& r.warnings == walk.warnings@.len() + extraction.warnings@.len()
    &&& r.broken_edges == broken
}

/// Summarise a collect run.
pub fn collect_report(
    walk: &WalkResult,
    diff: &WalkDiff,
    extraction: &ExtractionResult,
    flat: &Flattened,
    broken: &Vec<NodePath>,
) -> (r: CollectReport)
    requires
        walk.warnings@.len() + extraction.warnings@.len() <= usize::MAX,
    ensures
        report_matches(r, *walk, diff@, *extraction, flat.edges@.len(), broken@.len()),
{
    CollectReport {
        roots_discovered: walk.roots.len(),
        files_added: diff.added.len(),
        files_removed: diff.removed.len(),
        files_changed: diff.changed.len(),
        files_unchanged: diff.unchanged.len(),
        edges_added: flat.edges.len(),
        warnings: walk.warnings.len() + extraction.warnings.len(),
        broken_edges: broken.len(),
    }
}

/// One write of the collect transaction.
pub enum DbWrite {
    /// Remove a file's node, outgoing edges, regions and attributes.
    RemoveFile(NodePath),
    /// Insert or replace a file's node.
    UpsertNode(WalkedFile),
    InsertEdge(Edge),
    InsertRegion(Region),
    InsertAttribute(Attribute),
    /// Insert or replace a root and its refs.
    UpsertRoot(Root),
    /// Remove a root and its refs.
    RemoveRoot(String),
    /// Append rows to the changelog.
    AppendChangelog(Vec<ChangelogEntry>),
}

/// A write as plain values.
pub enum WriteView {
    RemoveFile(Seq<char>),
    UpsertNode(WalkedFileView),
    InsertEdge(EdgeView),
    InsertRegion(RegionView),
    InsertAttribute(AttributeView),
    UpsertRoot(RootView),
    RemoveRoot(Seq<char>),
    AppendChangelog(Seq<EntryView>),
}

impl View for DbWrite {
    type V = WriteView;

    open spec fn view(&self) -> WriteView {
        match self {
            DbWrite::RemoveFile(p) => WriteView::RemoveFile(p@),
            DbWrite::UpsertNode(f) => WriteView::UpsertNode(f@),
            DbWrite::InsertEdge(e) => WriteView::InsertEdge(e@),
            DbWrite::InsertRegion(r) => WriteView::InsertRegion(r@),
            DbWrite::InsertAttribute(a) => WriteView::InsertAttribute(a@),
            DbWrite::UpsertRoot(r) => WriteView::UpsertRoot(r@),
            DbWrite::RemoveRoot(p) => WriteView::RemoveRoot(p@),
            DbWrite::AppendChangelog(v) => WriteView::AppendChangelog(entries_view(v@)),
        }
    }
}

/// The views of writes.
pub open spec fn writes_view(v: Seq<DbWrite>) -> Seq<WriteView> {
    v.map_values(|w: DbWrite| w@)
}

/// A changed file is removed and inserted again.
pub open spec fn changed_writes(c: Seq<WalkedFileView>) -> Seq<WriteView>
    decreases c.len(),
{
    if c.len() == 0 {
        seq![]
    } else {
        changed_writes(c.drop_last()) + seq![WriteView::RemoveFile(c.last().path), WriteView::UpsertNode(c.last())]
    }
}

/// The writes of a collect run, in order: remove the removed files; remove
/// and insert again each changed file; insert the added files; insert the
/// extracted edges, regions and attributes; insert or replace the walked
/// roots; remove the stale roots; append the changelog rows.
pub open spec fn write_plan(
    diff: WalkDiffView,
    edges: Seq<EdgeView>,
    regions: Seq<RegionView>,
    attributes: Seq<AttributeView>,
    roots: Seq<RootView>,
    stale: Seq<Seq<char>>,
    log: Seq<EntryView>,
) -> Seq<WriteView> {
    diff.removed.map_values(|p: Seq<char>| WriteView::RemoveFile(p)) + changed_writes(diff.changed)
        + diff.added.map_values(|f: WalkedFileView| WriteView::UpsertNode(f)) + edges.map_values(
        |e: EdgeView| WriteView::InsertEdge(e),
    ) + regions.map_values(|r: RegionView| WriteView::InsertRegion(r)) + attributes.map_values(
        |a: AttributeView| WriteView::InsertAttribute(a),
    ) + roots.map_values(|r: RootView| WriteView::UpsertRoot(r)) + stale.map_values(
        |p: Seq<char>| WriteView::RemoveRoot(p),
    ) + seq![WriteView::AppendChangelog(log)]
}

/// Plan the writes of a collect run, as `write_plan` orders them, with the
/// node changelog rows of the diff.
pub fn plan_writes(diff: &WalkDiff, flat: &Flattened, roots: &[Root], stale: &Vec<String>) -> (r: Vec<
    DbWrite,
>)
    ensures
        writes_view(r@) == write_plan(
            diff@,
            edges_view(flat.edges@),
            regions_view(flat.regions@),
            attributes_view(flat.attributes@),
            roots_view(roots@),
            strings_view(stale@),
            crate::db::node_changelog_spec(
                diff@.added.map_values(|f: WalkedFileView| f.path),
                diff@.removed,
            ),
        ),
{
    let mut w: Vec<DbWrite> = Vec::new();
    // Removed files.
    let mut i: usize = 0;
    while i < diff.removed.len()
        invariant
            i <= diff.removed@.len(),
            writes_view(w@) == diff@.removed.take(i as int).map_values(|p: Seq<char>| WriteView::RemoveFile(p)),
        decreases diff.removed@.len() - i,
    {
        let ghost before = w@;
        w.push(DbWrite::RemoveFile(diff.removed[i].clone()));
        proof {
            assert(writes_view(w@) =~= writes_view(before).push(WriteView::RemoveFile(diff@.removed[i as int])));
            assert(diff@.removed.take(i + 1).map_values(|p: Seq<char>| WriteView::RemoveFile(p))
                =~= diff@.removed.take(i as int).map_values(|p: Seq<char>| WriteView::RemoveFile(p)).push(
                WriteView::RemoveFile(diff@.removed[i as int]),
            ));
        }
        i = i + 1;
    }
    proof {
        assert(diff@.removed.take(i as int) =~= diff@.removed);
    }
    let ghost s1 = writes_view(w@);
    // Changed files.
    let mut i: usize = 0;
    while i < diff.changed.len()
        invariant
            i <= diff.changed@.len(),
            writes_view(w@) == s1 + changed_writes(diff@.changed.take(i as int)),
        decreases diff.changed@.len() - i,
    {
        let ghost before = w@;
        let f = &diff.changed[i];
        w.push(DbWrite::RemoveFile(f.path.clone()));
        w.push(DbWrite::UpsertNode(f.clone()));
        proof {
            assert(diff@.changed.take(i + 1).drop_last() =~= diff@.changed.take(i as int));
            assert(diff@.changed.take(i + 1).last() == f@);
            assert(writes_view(w@) =~= writes_view(before) + seq![WriteView::RemoveFile(f@.path), WriteView::UpsertNode(f@)]);
        }
        i = i + 1;
    }
    proof {
        assert(diff@.changed.take(i as int) =~= diff@.changed);
    }
    let ghost s2 = writes_view(w@);
    // Added files.
    let mut i: usize = 0;
    while i < diff.added.len()
        invariant
            i <= diff.added@.len(),
            writes_view(w@) == s2 + diff@.added.take(i as int).map_values(|f: WalkedFileView| WriteView::UpsertNode(f)),
        decreases diff.added@.len() - i,
    {
        let ghost before = w@;
        w.push(DbWrite::UpsertNode(diff.added[i].clone()));
        proof {
            assert(writes_view(w@) =~= writes_view(before).push(WriteView::UpsertNode(diff@.added[i as int])));
            assert(diff@.added.take(i + 1).map_values(|f: WalkedFileView| WriteView::UpsertNode(f))
                =~= diff@.added.take(i as int).map_values(|f: WalkedFileView| WriteView::UpsertNode(f)).push(
                WriteView::UpsertNode(diff@.added[i as int]),
            ));
        }
        i = i + 1;
    }
    proof {
        assert(diff@.added.take(i as int) =~= diff@.added);
    }
    let ghost s3 = writes_view(w@);
    // Edges.
    let ghost ev = edges_view(flat.edges@);
    let mut i: usize = 0;
    while i < flat.edges.len()
        invariant
            ev == edges_view(flat.edges@),
            i <= flat.edges@.len(),
            writes_view(w@) == s3 + ev.take(i as int).map_values(|e: EdgeView| WriteView::InsertEdge(e)),
        decreases flat.edges@.len() - i,
    {
        let ghost before = w@;
        w.push(DbWrite::InsertEdge(flat.edges[i].clone()));
        proof {
            assert(writes_view(w@) =~= writes_view(before).push(WriteView::InsertEdge(ev[i as int])));
            assert(ev.take(i + 1).map_values(|e: EdgeView| WriteView::InsertEdge(e)) =~= ev.take(
                i as int,
            ).map_values(|e: EdgeView| WriteView::InsertEdge(e)).push(WriteView::InsertEdge(ev[i as int])));
        }
        i = i + 1;
    }
    proof {
        assert(ev.take(i as int) =~= ev);
    }
    let ghost s4 = writes_view(w@);
    // Regions.
    let ghost rv = regions_view(flat.regions@);
    let mut i: usize = 0;
    while i < flat.regions.len()
        invariant
            rv == regions_view(flat.regions@),
            i <= flat.regions@.len(),
            writes_view(w@) == s4 + rv.take(i as int).map_values(|r: RegionView| WriteView::InsertRegion(r)),
        decreases flat.regions@.len() - i,
    {
        let ghost before = w@;
        w.push(DbWrite::InsertRegion(flat.regions[i].clone()));
        proof {
            assert(writes_view(w@) =~= writes_view(before).push(WriteView::InsertRegion(rv[i as int])));
            assert(rv.take(i + 1).map_values(|r: RegionView| WriteView::InsertRegion(r)) =~= rv.take(
                i as int,
            ).map_values(|r: RegionView| WriteView::InsertRegion(r)).push(WriteView::InsertRegion(rv[i as int])));
        }
        i = i + 1;
    }
    proof {
        assert(rv.take(i as int) =~= rv);
    }
    let ghost s5 = writes_view(w@);
    // Attributes.
    let ghost av = attributes_view(flat.attributes@);
    let mut i: usize = 0;
    while i < flat.attributes.len()
        invariant
            av == attributes_view(flat.attributes@),
            i <= flat.attributes@.len(),
            writes_view(w@) == s5 + av.take(i as int).map_values(|a: AttributeView| WriteView::InsertAttribute(a)),
        decreases flat.attributes@.len() - i,
    {
        let ghost before = w@;
        w.push(DbWrite::InsertAttribute(flat.attributes[i].clone()));
        proof {
            assert(writes_view(w@) =~= writes_view(before).push(WriteView::InsertAttribute(av[i as int])));
            assert(av.take(i + 1).map_values(|a: AttributeView| WriteView::InsertAttribute(a)) =~= av.take(
                i as int,
            ).map_values(|a: AttributeView| WriteView::InsertAttribute(a)).push(
                WriteView::InsertAttribute(av[i as int]),
            ));
        }
        i = i + 1;
    }
    proof {
        assert(av.take(i as int) =~= av);
    }
    let ghost s6 = writes_view(w@);
    // Roots.
    let ghost ov = roots_view(roots@);
    let mut i: usize = 0;
    while i < roots.len()
        invariant
            ov == roots_view(roots@),
            i <= roots@.len(),
            writes_view(w@) == s6 + ov.take(i as int).map_values(|r: RootView| WriteView::UpsertRoot(r)),
        decreases roots@.len() - i,
    {
        let ghost before = w@;
        w.push(DbWrite::UpsertRoot(roots[i].clone()));
        proof {
            assert(writes_view(w@) =~= writes_view(before).push(WriteView::UpsertRoot(ov[i as int])));
            assert(ov.take(i + 1).map_values(|r: RootView| WriteView::UpsertRoot(r)) =~= ov.take(
                i as int,
            ).map_values(|r: RootView| WriteView::UpsertRoot(r)).push(WriteView::UpsertRoot(ov[i as int])));
        }
        i = i + 1;
    }
    proof {
        assert(ov.take(i as int) =~= ov);
    }
    let ghost s7 = writes_view(w@);
    // Stale roots.
    let ghost sv = strings_view(stale@);
    let mut i: usize = 0;
    while i < stale.len()
        invariant
            sv == strings_view(stale@),
            i <= stale@.len(),
            writes_view(w@) == s7 + sv.take(i as int).map_values(|p: Seq<char>| WriteView::RemoveRoot(p)),
        decreases stale@.len() - i,
    {
        let ghost before = w@;
        w.push(DbWrite::RemoveRoot(stale[i].clone()));
        proof {
            assert(writes_view(w@) =~= writes_view(before).push(WriteView::RemoveRoot(sv[i as int])));
            assert(sv.take(i + 1).map_values(|p: Seq<char>| WriteView::RemoveRoot(p)) =~= sv.take(
                i as int,
            ).map_values(|p: Seq<char>| WriteView::RemoveRoot(p)).push(WriteView::RemoveRoot(sv[i as int])));
        }
        i = i + 1;
    }
    proof {
        assert(sv.take(i as int) =~= sv);
    }
    let log = crate::db::node_changelog(diff);
    let ghost before = w@;
    w.push(DbWrite::AppendChangelog(log));
    proof {
        assert(writes_view(w@) =~= writes_view(before).push(w@.last()@));
        assert(writes_view(w@) =~= write_plan(
            diff@,
            edges_view(flat.edges@),
            regions_view(flat.regions@),
            attributes_view(flat.attributes@),
            roots_view(roots@),
            strings_view(stale@),
            crate::db::node_changelog_spec(
                diff@.added.map_values(|f: WalkedFileView| f.path),
                diff@.removed,
            ),
        ));
    }
    w
}

// ---------------------------------------------------------------------------
// What the store holds after the writes.

/// What the store holds that a collect run answers for: the hash of each
/// file node, by path, and the paths of the roots.
pub struct StoreView {
    pub nodes: Map<Seq<char>, Seq<char>>,
    pub roots: Set<Seq<char>>,
}

/// A write's effect on node hashes and root paths, as `DbWrite` says:
/// removing a file drops its node, upserting a node records its hash,
/// upserting a root records its path, removing a root drops it; edges,
/// regions, attributes and changelog rows leave both alone.
pub open spec fn write_effect(st: StoreView, w: WriteView) -> StoreView {
    match w {
        WriteView::RemoveFile(p) => StoreView { nodes: st.nodes.remove(p), roots: st.roots },
        WriteView::UpsertNode(f) => StoreView { nodes: st.nodes.insert(f.path, f.hash), roots: st.roots },
        WriteView::UpsertRoot(r) => StoreView { nodes: st.nodes, roots: st.roots.insert(r.path) },
        WriteView::RemoveRoot(p) => StoreView { nodes: st.nodes, roots: st.roots.remove(p) },
        _ => st,
    }
}

/// The store after the writes `ws`, applied in order, from `st`.
pub open spec fn apply_writes(st: StoreView, ws: Seq<WriteView>) -> StoreView
    decreases ws.len(),
{
    if ws.len() == 0 {
        st
    } else {
        apply_writes(write_effect(st, ws[0]), ws.drop_first())
    }
}

proof fn lemma_apply_append(st: StoreView, a: Seq<WriteView>, b: Seq<WriteView>)
    ensures
        apply_writes(st, a + b) == apply_writes(apply_writes(st, a), b),
    decreases a.len(),
{
    if a.len() == 0 {
        assert(a + b =~= b);
    } else {
        assert((a + b)[0] == a[0]);
        assert((a + b).drop_first() =~= a.drop_first() + b);
        lemma_apply_append(write_effect(st, a[0]), a.drop_first(), b);
    }
}

proof fn lemma_apply_last(st: StoreView, ws: Seq<WriteView>)
    requires
        ws.len() > 0,
    ensures
        apply_writes(st, ws) == write_effect(apply_writes(st, ws.drop_last()), ws.last()),
{
    let one = seq![ws.last()];
    lemma_apply_append(st, ws.drop_last(), one);
    assert(ws.drop_last() + one =~= ws);
    let m = apply_writes(st, ws.drop_last());
    assert(one.drop_first() =~= Seq::<WriteView>::empty());
    assert(apply_writes(write_effect(m, one[0]), one.drop_first()) == write_effect(m, one[0]));
    assert(apply_writes(m, one) == apply_writes(write_effect(m, one[0]), one.drop_first()));
}

/// A write that touches no node.
pub open spec fn keeps_nodes(w: WriteView) -> bool {
    !(w is RemoveFile) && !(w is UpsertNode)
}

/// A write that touches no root.
pub open spec fn keeps_roots(w: WriteView) -> bool {
    !(w is UpsertRoot) && !(w is RemoveRoot)
}

proof fn lemma_apply_keeps(st: StoreView, ws: Seq<WriteView>)
    ensures
        (forall|k: int| 0 <= k < ws.len() ==> keeps_nodes(#[trigger] ws[k])) ==> apply_writes(st, ws).nodes
            == st.nodes,
        (forall|k: int| 0 <= k < ws.len() ==> keeps_roots(#[trigger] ws[k])) ==> apply_writes(st, ws).roots
            == st.roots,
    decreases ws.len(),
{
    if ws.len() > 0 {
        lemma_apply_keeps(write_effect(st, ws[0]), ws.drop_first());
        if forall|k: int| 0 <= k < ws.len() ==> keeps_nodes(#[trigger] ws[k]) {
            assert(keeps_nodes(ws[0]));
            assert forall|k: int| 0 <= k < ws.drop_first().len() implies keeps_nodes(#[trigger] ws.drop_first()[k]) by {
                assert(ws.drop_first()[k] == ws[k + 1]);
            }
        }
        if forall|k: int| 0 <= k < ws.len() ==> keeps_roots(#[trigger] ws[k]) {
            assert(keeps_roots(ws[0]));
            assert forall|k: int| 0 <= k < ws.drop_first().len() implies keeps_roots(#[trigger] ws.drop_first()[k]) by {
                assert(ws.drop_first()[k] == ws[k + 1]);
            }
        }
    }
}

/// Removing each of the files `rs`.
pub open spec fn removes(rs: Seq<Seq<char>>) -> Seq<WriteView> {
    rs.map_values(|p: Seq<char>| WriteView::RemoveFile(p))
}

/// Upserting the node of each of the files `fs`.
pub open spec fn upserts(fs: Seq<WalkedFileView>) -> Seq<WriteView> {
    fs.map_values(|f: WalkedFileView| WriteView::UpsertNode(f))
}

/// The paths of the files `fs`.
pub open spec fn file_paths(fs: Seq<WalkedFileView>) -> Seq<Seq<char>> {
    fs.map_values(|f: WalkedFileView| f.path)
}

/// `p` occurs nowhere in `s`.
pub open spec fn absent(s: Seq<Seq<char>>, p: Seq<char>) -> bool {
    forall|k: int| 0 <= k < s.len() ==> s[k] != p
}

proof fn lemma_removes(st: StoreView, rs: Seq<Seq<char>>)
    ensures
        apply_writes(st, removes(rs)).roots == st.roots,
        forall|p: Seq<char>|
            #![trigger apply_writes(st, removes(rs)).nodes.dom().contains(p)]
            apply_writes(st, removes(rs)).nodes.dom().contains(p)
                <==> (st.nodes.dom().contains(p) && absent(rs, p)),
        forall|p: Seq<char>|
            #![trigger apply_writes(st, removes(rs)).nodes[p]]
            apply_writes(st, removes(rs)).nodes.dom().contains(p)
                ==> apply_writes(st, removes(rs)).nodes[p]
                == st.nodes[p],
    decreases rs.len(),
{
    let ws = removes(rs);
    if rs.len() > 0 {
        let pre = rs.drop_last();
        lemma_removes(st, pre);
        assert(ws.drop_last() =~= removes(pre));
        lemma_apply_last(st, ws);
        assert forall|p: Seq<char>| absent(rs, p) <==> (absent(pre, p) && rs.last() != p) by {
            if absent(pre, p) && rs.last() != p {
                assert forall|k: int| 0 <= k < rs.len() implies rs[k] != p by {
                    if k < pre.len() {
                        assert(rs[k] == pre[k]);
                    }
                }
            }
            if absent(rs, p) {
                assert(rs[rs.len() - 1] != p);
                assert forall|k: int| 0 <= k < pre.len() implies pre[k] != p by {
                    assert(rs[k] == pre[k]);
                }
            }
        }
    }
}

/// The hash that the last of the upserted files with path `p` records.
proof fn lemma_upserts(st: StoreView, fs: Seq<WalkedFileView>)
    ensures
        apply_writes(st, upserts(fs)).roots == st.roots,
        forall|p: Seq<char>|
            #![trigger apply_writes(st, upserts(fs)).nodes.dom().contains(p)]
            apply_writes(st, upserts(fs)).nodes.dom().contains(p)
                <==> (st.nodes.dom().contains(p) || !absent(file_paths(fs), p)),
        forall|p: Seq<char>|
            absent(file_paths(fs), p) ==> #[trigger] apply_writes(
                st,
                upserts(fs),
            ).nodes[p] == st.nodes[p],
        forall|p: Seq<char>|
            !absent(file_paths(fs), p) ==> exists|k: int|
                0 <= k < fs.len() && (#[trigger] fs[k]).path == p && apply_writes(
                    st,
                    upserts(fs),
                ).nodes[p] == fs[k].hash,
    decreases fs.len(),
{
    let ws = upserts(fs);
    let ps = file_paths(fs);
    if fs.len() > 0 {
        let pre = fs.drop_last();
        let pps = file_paths(pre);
        lemma_upserts(st, pre);
        assert(ws.drop_last() =~= upserts(pre));
        lemma_apply_last(st, ws);
        let last = fs.last();
        assert forall|p: Seq<char>| absent(ps, p) <==> (absent(pps, p) && last.path != p) by {
            if absent(pps, p) && last.path != p {
                assert forall|k: int| 0 <= k < ps.len() implies ps[k] != p by {
                    if k < pps.len() {
                        assert(ps[k] == pps[k]);
                    }
                }
            }
            if absent(ps, p) {
                assert(ps[ps.len() - 1] != p);
                assert forall|k: int| 0 <= k < pps.len() implies pps[k] != p by {
                    assert(ps[k] == pps[k]);
                }
            }
        }
        let m = apply_writes(st, ws);
        assert forall|p: Seq<char>| !absent(ps, p) implies exists|k: int|
            0 <= k < fs.len() && (#[trigger] fs[k]).path == p && m.nodes[p] == fs[k].hash by {
            if last.path == p {
                assert(fs[fs.len() - 1] == last);
            } else {
                let k = choose|k: int|
                    0 <= k < pre.len() && (#[trigger] pre[k]).path == p && apply_writes(
                        st,
                        upserts(pre),
                    ).nodes[p] == pre[k].hash;
                assert(fs[k] == pre[k]);
            }
        }
    }
}

proof fn lemma_changed_writes(st: StoreView, c: Seq<WalkedFileView>)
    ensures
        apply_writes(st, changed_writes(c)).roots == st.roots,
        forall|p: Seq<char>|
            #![trigger apply_writes(st, changed_writes(c)).nodes.dom().contains(p)]
            apply_writes(st, changed_writes(c)).nodes.dom().contains(p) <==> (st.nodes.dom().contains(p)
                || !absent(file_paths(c), p)),
        forall|p: Seq<char>|
            absent(file_paths(c), p) ==> #[trigger] apply_writes(
                st,
                changed_writes(c),
            ).nodes[p] == st.nodes[p],
        forall|p: Seq<char>|
            !absent(file_paths(c), p) ==> exists|k: int|
                0 <= k < c.len() && (#[trigger] c[k]).path == p && apply_writes(st, changed_writes(c)).nodes[p]
                    == c[k].hash,
    decreases c.len(),
{
    let ps = file_paths(c);
    if c.len() > 0 {
        let pre = c.drop_last();
        let pps = file_paths(pre);
        let last = c.last();
        lemma_changed_writes(st, pre);
        let two = seq![WriteView::RemoveFile(last.path), WriteView::UpsertNode(last)];
        lemma_apply_append(st, changed_writes(pre), two);
        let m0 = apply_writes(st, changed_writes(pre));
        let one = seq![WriteView::UpsertNode(last)];
        let m1 = write_effect(m0, two[0]);
        assert(two.drop_first() =~= one);
        assert(one.drop_first() =~= Seq::<WriteView>::empty());
        assert(apply_writes(write_effect(m1, one[0]), one.drop_first()) == write_effect(m1, one[0]));
        assert(apply_writes(m1, one) == write_effect(m1, one[0]));
        assert(apply_writes(m0, two) == apply_writes(m1, two.drop_first()));
        assert(apply_writes(m0, two) == write_effect(m1, WriteView::UpsertNode(last)));
        assert forall|p: Seq<char>| absent(ps, p) <==> (absent(pps, p) && last.path != p) by {
            if absent(pps, p) && last.path != p {
                assert forall|k: int| 0 <= k < ps.len() implies ps[k] != p by {
                    if k < pps.len() {
                        assert(ps[k] == pps[k]);
                    }
                }
            }
            if absent(ps, p) {
                assert(ps[ps.len() - 1] != p);
                assert forall|k: int| 0 <= k < pps.len() implies pps[k] != p by {
                    assert(ps[k] == pps[k]);
                }
            }
        }
        let m = apply_writes(st, changed_writes(c));
        assert forall|p: Seq<char>| !absent(ps, p) implies exists|k: int|
            0 <= k < c.len() && (#[trigger] c[k]).path == p && m.nodes[p] == c[k].hash by {
            if last.path == p {
                assert(c[c.len() - 1] == last);
            } else {
                let k = choose|k: int|
                    0 <= k < pre.len() && (#[trigger] pre[k]).path == p && apply_writes(
                        st,
                        changed_writes(pre),
                    ).nodes[p] == pre[k].hash;
                assert(c[k] == pre[k]);
            }
        }
    }
}

/// Upserting each of the roots `rs`.
pub open spec fn root_upserts(rs: Seq<RootView>) -> Seq<WriteView> {
    rs.map_values(|r: RootView| WriteView::UpsertRoot(r))
}

/// Removing each of the roots `ps`.
pub open spec fn root_removes(ps: Seq<Seq<char>>) -> Seq<WriteView> {
    ps.map_values(|p: Seq<char>| WriteView::RemoveRoot(p))
}

/// The paths of the roots `rs`.
pub open spec fn root_paths_of(rs: Seq<RootView>) -> Seq<Seq<char>> {
    rs.map_values(|r: RootView| r.path)
}

proof fn lemma_root_upserts(st: StoreView, rs: Seq<RootView>)
    ensures
        apply_writes(st, root_upserts(rs)).nodes == st.nodes,
        forall|p: Seq<char>|
            #[trigger] apply_writes(st, root_upserts(rs)).roots.contains(p) <==> (st.roots.contains(p)
                || !absent(root_paths_of(rs), p)),
    decreases rs.len(),
{
    if rs.len() > 0 {
        let pre = rs.drop_last();
        lemma_root_upserts(st, pre);
        let ws = root_upserts(rs);
        assert(ws.drop_last() =~= root_upserts(pre));
        lemma_apply_last(st, ws);
        let ps = root_paths_of(rs);
        let pps = root_paths_of(pre);
        assert forall|p: Seq<char>| absent(ps, p) <==> (absent(pps, p) && rs.last().path != p) by {
            if absent(pps, p) && rs.last().path != p {
                assert forall|k: int| 0 <= k < ps.len() implies ps[k] != p by {
                    if k < pps.len() {
                        assert(ps[k] == pps[k]);
                    }
                }
            }
            if absent(ps, p) {
                assert(ps[ps.len() - 1] != p);
                assert forall|k: int| 0 <= k < pps.len() implies pps[k] != p by {
                    assert(ps[k] == pps[k]);
                }
            }
        }
    }
}

proof fn lemma_root_removes(st: StoreView, ps: Seq<Seq<char>>)
    ensures
        apply_writes(st, root_removes(ps)).nodes == st.nodes,
        forall|p: Seq<char>|
            #[trigger] apply_writes(st, root_removes(ps)).roots.contains(p) <==> (st.roots.contains(p)
                && absent(ps, p)),
    decreases ps.len(),
{
    if ps.len() > 0 {
        let pre = ps.drop_last();
        lemma_root_removes(st, pre);
        let ws = root_removes(ps);
        assert(ws.drop_last() =~= root_removes(pre));
        lemma_apply_last(st, ws);
        assert forall|p: Seq<char>| absent(ps, p) <==> (absent(pre, p) && ps.last() != p) by {
            if absent(pre, p) && ps.last() != p {
                assert forall|k: int| 0 <= k < ps.len() implies ps[k] != p by {
                    if k < pre.len() {
                        assert(ps[k] == pre[k]);
                    }
                }
            }
            if absent(ps, p) {
                assert(ps[ps.len() - 1] != p);
                assert forall|k: int| 0 <= k < pre.len() implies pre[k] != p by {
                    assert(ps[k] == pre[k]);
                }
            }
        }
    }
}

proof fn lemma_filter_map_has<A, B>(s: Seq<A>, f: spec_fn(A) -> Option<B>, i: int)
    requires
        0 <= i < s.len(),
        f(s[i]) is Some,
    ensures
        s.filter_map(f).contains(f(s[i])->0),
    decreases s.len(),
{
    let r = s.filter_map(f);
    if i == s.len() - 1 {
        assert(r == s.drop_last().filter_map(f) + seq![f(s[i])->0]);
        assert(r[r.len() - 1] == f(s[i])->0);
    } else {
        lemma_filter_map_has(s.drop_last(), f, i);
        assert(s.drop_last()[i] == s[i]);
        let q = s.drop_last().filter_map(f);
        let k = choose|k: int| 0 <= k < q.len() && q[k] == f(s[i])->0;
        match f(s.last()) {
            Some(x) => {
                assert(r == q + seq![x]);
                assert(r[k] == q[k]);
            },
            None => {},
        }
    }
}

proof fn lemma_recorded_has(prev: Seq<(Seq<char>, Seq<char>)>, p: Seq<char>)
    requires
        recorded_hash(prev, p) is Some,
    ensures
        exists|i: int| 0 <= i < prev.len() && (#[trigger] prev[i]).0 == p,
    decreases prev.len(),
{
    if prev[0].0 != p {
        lemma_recorded_has(prev.drop_first(), p);
        let i = choose|i: int| 0 <= i < prev.drop_first().len() && (#[trigger] prev.drop_first()[i]).0 == p;
        assert(prev[i + 1] == prev.drop_first()[i]);
    }
}

/// The node hashes the recorded pairs hold: the hash recorded for each path.
pub open spec fn recorded_map(prev: Seq<(Seq<char>, Seq<char>)>) -> Map<Seq<char>, Seq<char>> {
    Map::new(|p: Seq<char>| recorded_hash(prev, p) is Some, |p: Seq<char>| recorded_hash(prev, p)->0)
}

/// The node hashes a walk finds: the hash of the walked file at each path.
pub open spec fn walk_map(cur: Seq<WalkedFileView>) -> Map<Seq<char>, Seq<char>> {
    Map::new(
        |p: Seq<char>| !absent(file_paths(cur), p),
        |p: Seq<char>| cur[choose|k: int| 0 <= k < cur.len() && cur[k].path == p].hash,
    )
}

/// What a collect run leaves in the store: starting from a store whose
/// node hashes are the recorded pairs `prev` (paths absolute) and whose
/// roots are `prev_roots`, the writes that `plan_writes` plans for the diff
/// of the walk `cur` (no path walked twice) against `prev`, the walked
/// `roots` and the stale roots leave as node hashes exactly those of the
/// walked files, and as roots exactly the walked roots, whatever edges,
/// regions, attributes and changelog rows go with them.
#[verifier::spinoff_prover]
#[verifier::rlimit(40)]
pub proof fn law_collect_stores_the_walk(
    prev: Seq<(Seq<char>, Seq<char>)>,
    cur: Seq<WalkedFileView>,
    edges: Seq<EdgeView>,
    regions: Seq<RegionView>,
    attributes: Seq<AttributeView>,
    roots: Seq<RootView>,
    prev_roots: Seq<Seq<char>>,
    log: Seq<EntryView>,
)
    requires
        forall|i: int| 0 <= i < prev.len() ==> is_absolute(#[trigger] prev[i].0),
        file_paths(cur).no_duplicates(),
    ensures
        apply_writes(
            StoreView { nodes: recorded_map(prev), roots: prev_roots.to_set() },
            write_plan(
                diff_spec(prev, cur),
                edges,
                regions,
                attributes,
                roots,
                stale_spec(prev_roots, roots),
                log,
            ),
        ).nodes == walk_map(cur),
        apply_writes(
            StoreView { nodes: recorded_map(prev), roots: prev_roots.to_set() },
            write_plan(
                diff_spec(prev, cur),
                edges,
                regions,
                attributes,
                roots,
                stale_spec(prev_roots, roots),
                log,
            ),
        ).roots == root_paths_of(roots).to_set(),
{
    let d = diff_spec(prev, cur);
    let stale = stale_spec(prev_roots, roots);
    let st0 = StoreView { nodes: recorded_map(prev), roots: prev_roots.to_set() };
    let w_rm = removes(d.removed);
    let w_ch = changed_writes(d.changed);
    let w_add = upserts(d.added);
    let w_e = edges.map_values(|e: EdgeView| WriteView::InsertEdge(e));
    let w_r = regions.map_values(|r: RegionView| WriteView::InsertRegion(r));
    let w_a = attributes.map_values(|a: AttributeView| WriteView::InsertAttribute(a));
    let w_ru = root_upserts(roots);
    let w_rr = root_removes(stale);
    let w_log = seq![WriteView::AppendChangelog(log)];
    let mid = w_e + w_r + w_a;
    let plan = write_plan(d, edges, regions, attributes, roots, stale, log);
    assert(plan =~= w_rm + w_ch + w_add + mid + w_ru + w_rr + w_log);
    // Apply the plan piece by piece.
    let st1 = apply_writes(st0, w_rm);
    let st2 = apply_writes(st1, w_ch);
    let st3 = apply_writes(st2, w_add);
    let st4 = apply_writes(st3, mid);
    let st5 = apply_writes(st4, w_ru);
    let st6 = apply_writes(st5, w_rr);
    let st7 = apply_writes(st6, w_log);
    lemma_apply_append(st0, w_rm, w_ch);
    lemma_apply_append(st0, w_rm + w_ch, w_add);
    lemma_apply_append(st0, w_rm + w_ch + w_add, mid);
    lemma_apply_append(st0, w_rm + w_ch + w_add + mid, w_ru);
    lemma_apply_append(st0, w_rm + w_ch + w_add + mid + w_ru, w_rr);
    lemma_apply_append(st0, w_rm + w_ch + w_add + mid + w_ru + w_rr, w_log);
    assert(apply_writes(st0, plan) == st7);
    lemma_removes(st0, d.removed);
    lemma_changed_writes(st1, d.changed);
    lemma_upserts(st2, d.added);
    assert forall|k: int| 0 <= k < mid.len() implies keeps_nodes(#[trigger] mid[k]) && keeps_roots(mid[k]) by {
        if k < w_e.len() {
        } else if k < w_e.len() + w_r.len() {
        } else {
        }
    }
    lemma_apply_keeps(st3, mid);
    lemma_root_upserts(st4, roots);
    lemma_root_removes(st5, stale);
    assert forall|k: int| 0 <= k < w_log.len() implies keeps_nodes(#[trigger] w_log[k]) && keeps_roots(w_log[k]) by {}
    lemma_apply_keeps(st6, w_log);
    assert(st7.nodes == st3.nodes);
    // Nodes.
    let ad = d.added;
    let ch = d.changed;
    let rm = d.removed;
    let wp = file_paths(cur);
    assert(walked_paths(cur) =~= wp);
    law_diff_partitions(prev, cur);
    assert forall|j: int| 0 <= j < ad.len() implies cur.contains(#[trigger] ad[j]) by {
        assert(ad.contains(ad[j]));
        cur.lemma_filter_map_contains(keep_added(prev), ad[j]);
    }
    assert forall|j: int| 0 <= j < ch.len() implies cur.contains(#[trigger] ch[j]) by {
        assert(ch.contains(ch[j]));
        cur.lemma_filter_map_contains(keep_changed(prev), ch[j]);
    }
    assert forall|p: Seq<char>, k: int|
        0 <= k < cur.len() && cur[k].path == p implies #[trigger] walk_map(cur)[p] == (#[trigger] cur[k]).hash by {
        assert(wp[k] == p);
        let i = choose|i: int| 0 <= i < cur.len() && cur[i].path == p;
        assert(wp[i] == wp[k]);
    }
    assert forall|p: Seq<char>| #[trigger] st3.nodes.dom().contains(p) <==> !absent(wp, p) by {
        if !absent(wp, p) {
            let k = choose|k: int| 0 <= k < wp.len() && wp[k] == p;
            let f = cur[k];
            if recorded_hash(prev, p) is None {
                lemma_filter_map_has(cur, keep_added(prev), k);
                let j = choose|j: int| 0 <= j < ad.len() && ad[j] == f;
                assert(file_paths(ad)[j] == p);
            } else if recorded_hash(prev, p) != Some(f.hash) {
                lemma_filter_map_has(cur, keep_changed(prev), k);
                let j = choose|j: int| 0 <= j < ch.len() && ch[j] == f;
                assert(file_paths(ch)[j] == p);
            } else {
                assert forall|j: int| 0 <= j < rm.len() implies rm[j] != p by {
                    assert(!walked_paths(cur).contains(rm[j]));
                    assert(walked_paths(cur)[k] == p);
                }
            }
        }
        if st3.nodes.dom().contains(p) && absent(wp, p) {
            if !absent(file_paths(ad), p) {
                let j = choose|j: int| 0 <= j < file_paths(ad).len() && file_paths(ad)[j] == p;
                assert(cur.contains(ad[j]));
                let k = choose|k: int| 0 <= k < cur.len() && cur[k] == ad[j];
                assert(wp[k] == p);
            } else if !absent(file_paths(ch), p) {
                let j = choose|j: int| 0 <= j < file_paths(ch).len() && file_paths(ch)[j] == p;
                assert(cur.contains(ch[j]));
                let k = choose|k: int| 0 <= k < cur.len() && cur[k] == ch[j];
                assert(wp[k] == p);
            } else {
                assert(st1.nodes.dom().contains(p));
                lemma_recorded_has(prev, p);
                let i = choose|i: int| 0 <= i < prev.len() && (#[trigger] prev[i]).0 == p;
                assert(!walked_paths(cur).contains(p));
                assert(keep_removed(cur)(prev[i]) == Some(p));
                lemma_filter_map_has(prev, keep_removed(cur), i);
                let j = choose|j: int| 0 <= j < rm.len() && rm[j] == p;
            }
        }
    }
    assert forall|p: Seq<char>| st3.nodes.dom().contains(p) implies #[trigger] st3.nodes[p] == walk_map(cur)[p] by {
        let k = choose|k: int| 0 <= k < wp.len() && wp[k] == p;
        let f = cur[k];
        assert(walk_map(cur)[p] == f.hash);
        if !absent(file_paths(ad), p) {
            let j = choose|j: int| 0 <= j < ad.len() && (#[trigger] ad[j]).path == p && st3.nodes[p] == ad[j].hash;
            assert(cur.contains(ad[j]));
            let i = choose|i: int| 0 <= i < cur.len() && cur[i] == ad[j];
            assert(wp[i] == wp[k]);
        } else if !absent(file_paths(ch), p) {
            let j = choose|j: int| 0 <= j < ch.len() && (#[trigger] ch[j]).path == p && st2.nodes[p] == ch[j].hash;
            assert(cur.contains(ch[j]));
            let i = choose|i: int| 0 <= i < cur.len() && cur[i] == ch[j];
            assert(wp[i] == wp[k]);
        } else {
            if recorded_hash(prev, p) is None {
                lemma_filter_map_has(cur, keep_added(prev), k);
                let j = choose|j: int| 0 <= j < ad.len() && ad[j] == f;
                assert(file_paths(ad)[j] == p);
            } else if recorded_hash(prev, p) != Some(f.hash) {
                lemma_filter_map_has(cur, keep_changed(prev), k);
                let j = choose|j: int| 0 <= j < ch.len() && ch[j] == f;
                assert(file_paths(ch)[j] == p);
            }
            assert(st1.nodes.dom().contains(p));
        }
    }
    assert(st3.nodes =~= walk_map(cur));
    // Roots.
    let rp = root_paths_of(roots);
    assert(st4.roots == st0.roots);
    assert forall|p: Seq<char>| #[trigger] st7.roots.contains(p) <==> rp.to_set().contains(p) by {
        if rp.to_set().contains(p) {
            assert(rp.contains(p));
            assert forall|j: int| 0 <= j < stale.len() implies stale[j] != p by {
                assert(stale.contains(stale[j]));
                prev_roots.lemma_filter_map_contains(
                    |q: Seq<char>|
                        if !roots.map_values(|r: RootView| r.path).contains(q) {
                            Some(q)
                        } else {
                            None
                        },
                    stale[j],
                );
                assert(roots.map_values(|r: RootView| r.path) =~= rp);
            }
        }
        if st7.roots.contains(p) && !rp.contains(p) {
            assert(st0.roots.contains(p));
            assert(prev_roots.contains(p));
            let i = choose|i: int| 0 <= i < prev_roots.len() && prev_roots[i] == p;
            assert(roots.map_values(|r: RootView| r.path) =~= rp);
            lemma_filter_map_has(
                prev_roots,
                |q: Seq<char>|
                    if !roots.map_values(|r: RootView| r.path).contains(q) {
                        Some(q)
                    } else {
                        None
                    },
                i,
            );
            let j = choose|j: int| 0 <= j < stale.len() && stale[j] == p;
        }
    }
    assert(st7.roots =~= root_paths_of(roots).to_set());
}

/// The broken edges are exactly the removed paths that edges resolved to
/// before: a path is reported broken when, and only when, it was removed
/// and some edge resolved to it.
pub proof fn law_broken_are_removed_targets(removed: Seq<Seq<char>>, resolved: Seq<Seq<char>>)
    ensures
        forall|p: Seq<char>|
            #[trigger] broken_spec(removed, resolved).contains(p) <==> removed.contains(p) && resolved.contains(p),
{
    let f = |q: Seq<char>|
        if resolved.contains(q) {
            Some(q)
        } else {
            None
        };
    assert(broken_spec(removed, resolved) == removed.filter_map(f));
    assert forall|p: Seq<char>| #[trigger] broken_spec(removed, resolved).contains(p) <==> removed.contains(p)
        && resolved.contains(p) by {
        if broken_spec(removed, resolved).contains(p) {
            removed.lemma_filter_map_contains(f, p);
        }
        if removed.contains(p) && resolved.contains(p) {
            let i = choose|i: int| 0 <= i < removed.len() && removed[i] == p;
            lemma_filter_map_has(removed, f, i);
        }
    }
}

/// The stale roots are exactly the stored roots that no walked root has.
pub proof fn law_stale_are_unwalked_roots(previous: Seq<Seq<char>>, roots: Seq<RootView>)
    ensures
        forall|p: Seq<char>|
            #[trigger] stale_spec(previous, roots).contains(p) <==> previous.contains(p) && !root_paths_of(
                roots,
            ).contains(p),
{
    let f = |q: Seq<char>|
        if !roots.map_values(|r: RootView| r.path).contains(q) {
            Some(q)
        } else {
            None
        };
    assert(stale_spec(previous, roots) == previous.filter_map(f));
    assert(roots.map_values(|r: RootView| r.path) =~= root_paths_of(roots));
    assert forall|p: Seq<char>| #[trigger] stale_spec(previous, roots).contains(p) <==> previous.contains(p)
        && !root_paths_of(roots).contains(p) by {
        if stale_spec(previous, roots).contains(p) {
            previous.lemma_filter_map_contains(f, p);
        }
        if previous.contains(p) && !root_paths_of(roots).contains(p) {
            let i = choose|i: int| 0 <= i < previous.len() && previous[i] == p;
            lemma_filter_map_has(previous, f, i);
        }
    }
}

} // verus!
