//! The walker's decisions, as a state machine.
//!
//! Collection starts at a seed directory. Each root is a directory with a
//! `quine.yaml`: the walker reads its definition, registers the root, walks
//! its subtree for files, then follows its refs to discover other roots.
//! Refs are discovery, not permission: they widen what is known.
//!
//! The subtree walk enforces the boundaries: `.git` is never walked,
//! entries whose name matches an `exclude` glob pattern (`target`,
//! `*.db`) are skipped, a `.quine-stop` file halts
//! descent, a directory holding a `quine.yaml` is a root of its own and is
//! not descended into, and a directory inode seen before is not walked
//! again (symlink cycles). A root already visited is not walked again
//! (cycles in the discovery tree).
//!
//! The file system is outside: the walker says what it needs to know next
//! (a `WalkAction`), and the caller answers with what it found (a
//! `WalkEvent`). `Walker::step` takes the answer to the next state and
//! action.

use vstd::prelude::*;
use crate::errors::{LifeError, LifeWarning, WarningView, warnings_view};
use crate::paths::{
    Comp, components, join, lemma_rooted_entry, lemma_starts_with_trans, path_starts_with, plain_name,
    render, rooted, starts_with_tilde,
};
use crate::text::string_lit;
use crate::types::{
    DefinitionFile, DefinitionView, NodePath, RefEntry, Root, RootView, WalkedFile, WalkedFileView,
    clone_paths, clone_strings, files_view, law_from_cwd_normal, law_node_path_normal, node_from_cwd, node_new, opt_seq, opt_string, paths_view, roots_view, strings_view,
};
use vstd::string::StringExecFns;
use std::collections::HashSet;
use crate::walk::glob::{glob_matches_any, matches_any};
use crate::walk::hash::{content_hash, hash_content};
use crate::walk::WalkResult;

verus! {

/// What the walk knows of one directory entry (metadata follows symlinks).
#[derive(Clone, Copy)]
pub enum EntryKind {
    /// A directory: its inode, and whether it holds a `.quine-stop` file
    /// and a `quine.yaml`.
    Dir { inode: u64, has_stop: bool, has_definition: bool },
    /// A regular file, its size in bytes and its modification time (seconds
    /// since the epoch as an `f64`, held as its bit pattern).
    File { size: u64, modified_bits: u64 },
    /// Anything else, or an entry whose metadata could not be read.
    Other,
}

/// One entry of a listed directory.
pub struct DirEntry {
    pub name: String,
    pub kind: EntryKind,
}

/// What an entry holds, as plain values.
pub struct EntryView {
    pub name: Seq<char>,
    pub kind: EntryKind,
}

impl View for DirEntry {
    type V = EntryView;

    open spec fn view(&self) -> EntryView {
        EntryView { name: self.name@, kind: self.kind }
    }
}

/// The views of a sequence of entries.
pub open spec fn entries_view(v: Seq<DirEntry>) -> Seq<EntryView> {
    v.map_values(|e: DirEntry| e@)
}

/// The node path of entry `name` of directory `dir`.
pub open spec fn entry_path(dir: Seq<char>, name: Seq<char>, home: Option<Seq<char>>) -> Option<
    Seq<char>,
> {
    node_new(join(dir, name), home)
}

/// What the subtree walk does with one entry.
pub enum EntryStep {
    /// Go on to the next entry.
    Skip,
    /// Record the directory inode as seen and go on.
    Mark { inode: u64 },
    /// Register the file once its content is read.
    File { path: Seq<char>, size: u64, modified_bits: u64 },
    /// Record the inode; the directory is a root of its own: visit it and
    /// read its definition.
    SubRoot { inode: u64, root: Seq<char> },
    /// Record the inode and walk the directory.
    Descend { inode: u64, dir: Seq<char> },
}

/// The decision for entry `e` of directory `dir`: an entry whose name an
/// `exclude` pattern matches is skipped, and so are `.git` and directories
/// whose inode was seen; otherwise a directory's inode is recorded, and a
/// directory with a stop file is not descended, one with a definition file
/// is walked as a root of its own (unless visited already), and any other
/// is descended. A regular file is registered; anything else is skipped.
pub open spec fn entry_step(
    e: EntryView,
    exclude: Seq<Seq<char>>,
    seen: Set<u64>,
    visited: Seq<Seq<char>>,
    dir: Seq<char>,
    home: Option<Seq<char>>,
) -> EntryStep {
    match e.kind {
        EntryKind::Other => EntryStep::Skip,
        EntryKind::File { size, modified_bits } => if matches_any(exclude, e.name) {
            EntryStep::Skip
        } else {
            match entry_path(dir, e.name, home) {
                Some(path) => EntryStep::File { path, size, modified_bits },
                None => EntryStep::Skip,
            }
        },
        EntryKind::Dir { inode, has_stop, has_definition } => {
            if e.name == ".git"@ || matches_any(exclude, e.name) || seen.contains(inode) {
                EntryStep::Skip
            } else if has_stop {
                EntryStep::Mark { inode }
            } else {
                match entry_path(dir, e.name, home) {
                    Some(p) => if !has_definition {
                        EntryStep::Descend { inode, dir: p }
                    } else if visited.contains(p) {
                        EntryStep::Mark { inode }
                    } else {
                        EntryStep::SubRoot { inode, root: p }
                    },
                    None => EntryStep::Mark { inode },
                }
            }
        },
    }
}

/// The walk's rules for one entry: `.git`, a directory an exclude pattern
/// matches, and a directory holding a stop file are never walked into; a
/// file an exclude pattern matches is never registered; a directory holding
/// a definition file is never walked as part of the directory above it,
/// only as a root of its own, so that its files are registered for it.
pub proof fn law_entry_rules(
    e: EntryView,
    exclude: Seq<Seq<char>>,
    seen: Set<u64>,
    visited: Seq<Seq<char>>,
    dir: Seq<char>,
    home: Option<Seq<char>>,
)
    ensures
        e.kind matches EntryKind::Dir { has_stop, .. } && (e.name == ".git"@ || matches_any(
            exclude,
            e.name,
        ) || has_stop) ==> !(entry_step(e, exclude, seen, visited, dir, home) is Descend)
            && !(entry_step(e, exclude, seen, visited, dir, home) is SubRoot),
        e.kind is File && matches_any(exclude, e.name) ==> entry_step(
            e,
            exclude,
            seen,
            visited,
            dir,
            home,
        ) is Skip,
        e.kind matches EntryKind::Dir { has_definition, .. } && has_definition ==> !(entry_step(
            e,
            exclude,
            seen,
            visited,
            dir,
            home,
        ) is Descend),
{
}

/// The walk takes every entry its rules admit: a regular file that no
/// exclude pattern matches and whose path makes a node is registered with
/// its size and time, whatever its size; a directory that is not `.git`,
/// matched by no pattern and not seen before is recorded and, when its path
/// makes a node, walked into when it holds neither a stop file nor a
/// definition file, walked as a root of its own when it holds a definition
/// file and that root is not visited yet, and only recorded otherwise.
pub proof fn law_walk_takes_admitted_entries(
    e: EntryView,
    exclude: Seq<Seq<char>>,
    seen: Set<u64>,
    visited: Seq<Seq<char>>,
    dir: Seq<char>,
    home: Option<Seq<char>>,
)
    ensures
        e.kind matches EntryKind::File { size, modified_bits } ==> (!matches_any(exclude, e.name)
            && entry_path(dir, e.name, home) is Some ==> entry_step(e, exclude, seen, visited, dir, home)
            == EntryStep::File { path: entry_path(dir, e.name, home)->0, size, modified_bits }),
        e.kind matches EntryKind::Dir { inode, has_stop, has_definition } ==> (e.name != ".git"@
            && !matches_any(exclude, e.name) && !seen.contains(inode) ==> {
            &&& has_stop ==> entry_step(e, exclude, seen, visited, dir, home) == EntryStep::Mark { inode }
            &&& !has_stop && entry_path(dir, e.name, home) is None ==> entry_step(
                e,
                exclude,
                seen,
                visited,
                dir,
                home,
            ) == EntryStep::Mark { inode }
            &&& !has_stop && !has_definition && entry_path(dir, e.name, home) is Some ==> entry_step(
                e,
                exclude,
                seen,
                visited,
                dir,
                home,
            ) == EntryStep::Descend { inode, dir: entry_path(dir, e.name, home)->0 }
            &&& !has_stop && has_definition && entry_path(dir, e.name, home) is Some
                && !visited.contains(entry_path(dir, e.name, home)->0) ==> entry_step(
                e,
                exclude,
                seen,
                visited,
                dir,
                home,
            ) == EntryStep::SubRoot { inode, root: entry_path(dir, e.name, home)->0 }
            &&& !has_stop && has_definition && entry_path(dir, e.name, home) is Some
                && visited.contains(entry_path(dir, e.name, home)->0) ==> entry_step(
                e,
                exclude,
                seen,
                visited,
                dir,
                home,
            ) == EntryStep::Mark { inode }
        }),
        e.kind is Other ==> entry_step(e, exclude, seen, visited, dir, home) is Skip,
{
}

/// The executable form of an `EntryStep`.
pub enum EntryDecision {
    Skip,
    Mark { inode: u64 },
    File { path: NodePath, size: u64, modified_bits: u64 },
    SubRoot { inode: u64, root: NodePath },
    Descend { inode: u64, dir: NodePath },
}

impl View for EntryDecision {
    type V = EntryStep;

    open spec fn view(&self) -> EntryStep {
        match self {
            EntryDecision::Skip => EntryStep::Skip,
            EntryDecision::Mark { inode } => EntryStep::Mark { inode: *inode },
            EntryDecision::File { path, size, modified_bits } => EntryStep::File {
                path: path@,
                size: *size,
                modified_bits: *modified_bits,
            },
            EntryDecision::SubRoot { inode, root } => EntryStep::SubRoot { inode: *inode, root: root@ },
            EntryDecision::Descend { inode, dir } => EntryStep::Descend { inode: *inode, dir: dir@ },
        }
    }
}

/// Whether `v` holds the path `p`.
fn contains_path(v: &Vec<NodePath>, p: &NodePath) -> (r: bool)
    ensures
        r == paths_view(v@).contains(p@),
{
    let ghost pv = paths_view(v@);
    let mut i: usize = 0;
    while i < v.len()
        invariant
            pv == paths_view(v@),
            i <= v@.len(),
            forall|k: int| 0 <= k < i ==> pv[k] != p@,
        decreases v@.len() - i,
    {
        if v[i].same_as(p) {
            proof {
                assert(pv[i as int] == p@);
            }
            return true;
        }
        i = i + 1;
    }
    false
}

/// The node path of entry `name` of directory `dir`.
fn entry_node(dir: &NodePath, name: &String, home: Option<&str>) -> (r: Option<NodePath>)
    ensures
        match r {
            Some(p) => entry_path(dir@, name@, opt_seq(home)) == Some(p@),
            None => entry_path(dir@, name@, opt_seq(home)) is None,
        },
{
    let joined = dir.join(name.as_str());
    NodePath::new(joined.as_str(), home)
}

/// Decide what the subtree walk does with entry `e` of directory `dir`,
/// given the directory's exclusions, the inodes seen and the roots visited.
pub fn decide_entry(
    e: &DirEntry,
    exclude: &Vec<String>,
    seen: &HashSet<u64>,
    visited: &Vec<NodePath>,
    dir: &NodePath,
    home: Option<&str>,
) -> (r: EntryDecision)
    ensures
        r@ == entry_step(e@, strings_view(exclude@), seen@, paths_view(visited@), dir@, opt_seq(home)),
{
    broadcast use vstd::std_specs::hash::group_hash_axioms;

    match e.kind {
        EntryKind::Other => EntryDecision::Skip,
        EntryKind::File { size, modified_bits } => if glob_matches_any(exclude, &e.name) {
            EntryDecision::Skip
        } else {
            match entry_node(dir, &e.name, home) {
                Some(path) => EntryDecision::File { path, size, modified_bits },
                None => EntryDecision::Skip,
            }
        },
        EntryKind::Dir { inode, has_stop, has_definition } => {
            let git = string_lit(".git");
            if e.name == git || glob_matches_any(exclude, &e.name) || seen.contains(&inode) {
                EntryDecision::Skip
            } else if has_stop {
                EntryDecision::Mark { inode }
            } else {
                match entry_node(dir, &e.name, home) {
                    Some(p) => {
                        if !has_definition {
                            EntryDecision::Descend { inode, dir: p }
                        } else if contains_path(visited, &p) {
                            EntryDecision::Mark { inode }
                        } else {
                            EntryDecision::SubRoot { inode, root: p }
                        }
                    },
                    None => EntryDecision::Mark { inode },
                }
            }
        },
    }
}

// ---------------------------------------------------------------------------
// The machine, as plain values.

/// Work left on the walk's stack: a directory's entries still to decide, or
/// a root's refs still to follow.
pub enum FrameView {
    Entries {
        dir: Seq<char>,
        owner: Seq<char>,
        exclude: Seq<Seq<char>>,
        entries: Seq<EntryView>,
        next: nat,
    },
    Refs { root: Seq<char>, refs: Seq<Seq<char>>, next: nat },
}

/// What the walker waits for.
pub enum WaitingView {
    /// Whether the seed directory holds a definition file.
    Seed { dir: Seq<char> },
    /// The definition of a root about to be walked.
    Definition { root: Seq<char> },
    /// The entries of a directory, walked for `owner` with `exclude`.
    Listing { dir: Seq<char>, owner: Seq<char>, exclude: Seq<Seq<char>> },
    /// The content of a file, registered for `owner`.
    File { path: Seq<char>, size: u64, modified_bits: u64, owner: Seq<char> },
    /// Whether the directory a ref of `from` names exists and holds a
    /// definition file.
    Ref { from: Seq<char>, to: Seq<char> },
    /// Nothing: the walk is over.
    Finished,
}

/// The walker's state as plain values.
#[verifier::ext_equal]
pub struct WalkerView {
    pub home: Option<Seq<char>>,
    pub files: Seq<WalkedFileView>,
    pub roots: Seq<RootView>,
    pub warnings: Seq<WarningView>,
    /// Directory inodes seen so far.
    pub seen: Set<u64>,
    /// Roots visited so far.
    pub visited: Seq<Seq<char>>,
    pub frames: Seq<FrameView>,
    pub waiting: WaitingView,
    pub failed: bool,
    /// Each registered root with the exclude patterns of its definition, in
    /// the order the roots were registered.
    pub excludes: Seq<(Seq<char>, Seq<Seq<char>>)>,
}

/// What the caller is asked to find out, as plain values.
pub enum ActionView {
    CheckSeed(Seq<char>),
    ReadDefinition(Seq<char>),
    ListDir(Seq<char>),
    ReadFile(Seq<char>),
    CheckRef(Seq<char>),
    Done,
    Failed,
}

/// What the caller found, as plain values; `None` stands for a failure.
pub enum EventView {
    SeedChecked(bool),
    Definition(Option<DefinitionView>),
    Listed(Option<Seq<EntryView>>),
    FileRead(Option<Seq<u8>>),
    RefChecked { exists: bool, has_definition: bool },
}

/// The walk of seed directory `dir`, before anything is known.
pub open spec fn start_view(dir: Seq<char>, home: Option<Seq<char>>) -> WalkerView {
    WalkerView {
        home,
        files: seq![],
        roots: seq![],
        warnings: seq![],
        seen: Set::empty(),
        visited: seq![],
        frames: seq![],
        waiting: WaitingView::Seed { dir },
        failed: false,
        excludes: seq![],
    }
}

/// The action that asks for what `v` waits for.
pub open spec fn action_of(v: WalkerView) -> ActionView {
    match v.waiting {
        WaitingView::Seed { dir } => ActionView::CheckSeed(dir),
        WaitingView::Definition { root } => ActionView::ReadDefinition(root),
        WaitingView::Listing { dir, .. } => ActionView::ListDir(dir),
        WaitingView::File { path, .. } => ActionView::ReadFile(path),
        WaitingView::Ref { to, .. } => ActionView::CheckRef(to),
        WaitingView::Finished => if v.failed {
            ActionView::Failed
        } else {
            ActionView::Done
        },
    }
}

/// How much work a frame holds.
pub open spec fn frame_work(f: FrameView) -> nat {
    match f {
        FrameView::Entries { entries, next, .. } => if next <= entries.len() {
            (entries.len() - next) as nat + 1
        } else {
            1
        },
        FrameView::Refs { refs, next, .. } => if next <= refs.len() {
            (refs.len() - next) as nat + 1
        } else {
            1
        },
    }
}

/// How much work the stack holds.
pub open spec fn work(fs: Seq<FrameView>) -> nat
    decreases fs.len(),
{
    if fs.len() == 0 {
        0
    } else {
        work(fs.drop_last()) + frame_work(fs.last())
    }
}

/// Dropping the top frame leaves less work.
pub proof fn lemma_work_pop(fs: Seq<FrameView>)
    requires
        fs.len() > 0,
    ensures
        work(fs.drop_last()) < work(fs),
{
}

/// Replacing the top frame by one with less work leaves less work.
pub proof fn lemma_work_top(fs: Seq<FrameView>, f: FrameView)
    requires
        fs.len() > 0,
        frame_work(f) < frame_work(fs.last()),
    ensures
        work(fs.update(fs.len() - 1, f)) < work(fs),
{
    let u = fs.update(fs.len() - 1, f);
    assert(u.drop_last() =~= fs.drop_last());
    assert(u.last() == f);
}

/// `v` with top frame `f`.
pub open spec fn with_top(v: WalkerView, f: FrameView) -> WalkerView {
    WalkerView { frames: v.frames.update(v.frames.len() - 1, f), ..v }
}

/// `v` without its top frame.
pub open spec fn popped(v: WalkerView) -> WalkerView {
    WalkerView { frames: v.frames.drop_last(), ..v }
}

/// `v` waiting for `w`.
pub open spec fn waiting_on(v: WalkerView, w: WaitingView) -> WalkerView {
    WalkerView { waiting: w, ..v }
}

/// `v` stopped by a failure.
pub open spec fn fail_view(v: WalkerView) -> WalkerView {
    WalkerView { waiting: WaitingView::Finished, failed: true, ..v }
}

/// Carry on with the stack until something outside is needed: the next
/// ref of a root is checked; the next entry of a directory is decided
/// (`entry_step`) and a file's content, a sub-root's definition or a
/// subdirectory's listing is asked for; a frame with nothing left is
/// dropped; with the stack empty the walk is over.
pub open spec fn advance(v: WalkerView) -> WalkerView
    decreases work(v.frames),
{
    if v.frames.len() == 0 {
        waiting_on(v, WaitingView::Finished)
    } else {
        match v.frames.last() {
            FrameView::Refs { root, refs, next } => {
                if next < refs.len() {
                    waiting_on(
                        with_top(v, FrameView::Refs { root, refs, next: next + 1 }),
                        WaitingView::Ref { from: root, to: refs[next as int] },
                    )
                } else {
                    proof {
                        lemma_work_pop(v.frames);
                    }
                    advance(popped(v))
                }
            },
            FrameView::Entries { dir, owner, exclude, entries, next } => {
                if next < entries.len() {
                    let f = FrameView::Entries { dir, owner, exclude, entries, next: next + 1 };
                    let v1 = with_top(v, f);
                    proof {
                        lemma_work_top(v.frames, f);
                    }
                    match entry_step(entries[next as int], exclude, v.seen, v.visited, dir, v.home) {
                        EntryStep::Skip => advance(v1),
                        EntryStep::Mark { inode } => advance(WalkerView { seen: v1.seen.insert(inode), ..v1 }),
                        EntryStep::File { path, size, modified_bits } => waiting_on(
                            v1,
                            WaitingView::File { path, size, modified_bits, owner },
                        ),
                        EntryStep::SubRoot { inode, root } => WalkerView {
                            seen: v1.seen.insert(inode),
                            visited: v1.visited.push(root),
                            waiting: WaitingView::Definition { root },
                            ..v1
                        },
                        EntryStep::Descend { inode, dir: sub } => WalkerView {
                            seen: v1.seen.insert(inode),
                            waiting: WaitingView::Listing { dir: sub, owner, exclude },
                            ..v1
                        },
                    }
                } else {
                    proof {
                        lemma_work_pop(v.frames);
                    }
                    advance(popped(v))
                }
            },
        }
    }
}

/// Walk root `r`: a root visited already is not walked again (the stack
/// carries on); otherwise it is marked visited and its definition read.
pub open spec fn enter_root(v: WalkerView, r: Seq<char>) -> WalkerView {
    if v.visited.contains(r) {
        advance(v)
    } else {
        WalkerView { visited: v.visited.push(r), waiting: WaitingView::Definition { root: r }, ..v }
    }
}

/// The node paths the refs of a definition name; those that make no node
/// are dropped.
pub open spec fn refs_of(refs: Seq<Seq<char>>, home: Option<Seq<char>>) -> Seq<Seq<char>> {
    refs.filter_map(|p: Seq<char>| node_new(p, home))
}

/// The next state once the caller answers `v` with `e`. The seed must hold
/// a definition file, or the walk fails; a root's definition registers the
/// root, pushes its refs to follow after its subtree and asks for the
/// root's listing; a listing pushes its entries; a file's content registers
/// the file with its hash; a ref naming no directory, or one without a
/// definition file, gives a `DanglingRef` warning, and one that does is
/// walked as a root. A failed read fails the walk. An answer to a question
/// not asked changes nothing.
pub open spec fn on_event(v: WalkerView, e: EventView) -> WalkerView {
    match (v.waiting, e) {
        (WaitingView::Seed { dir }, EventView::SeedChecked(found)) => if found {
            enter_root(v, dir)
        } else {
            fail_view(v)
        },
        (WaitingView::Definition { root }, EventView::Definition(d)) => match d {
            Some(d) => {
                let refs = refs_of(d.refs, v.home);
                WalkerView {
                    roots: v.roots.push(RootView { path: root, name: d.name, refs }),
                    frames: v.frames.push(FrameView::Refs { root, refs, next: 0 }),
                    waiting: WaitingView::Listing { dir: root, owner: root, exclude: d.exclude },
                    excludes: v.excludes.push((root, d.exclude)),
                    ..v
                }
            },
            None => fail_view(v),
        },
        (WaitingView::Listing { dir, owner, exclude }, EventView::Listed(l)) => match l {
            Some(entries) => advance(
                WalkerView {
                    frames: v.frames.push(FrameView::Entries { dir, owner, exclude, entries, next: 0 }),
                    ..v
                },
            ),
            None => advance(v),
        },
        (WaitingView::File { path, size, modified_bits, owner }, EventView::FileRead(c)) => match c {
            Some(bytes) => advance(
                WalkerView {
                    files: v.files.push(
                        WalkedFileView { path, hash: content_hash(bytes), size, modified_bits, root: owner },
                    ),
                    ..v
                },
            ),
            None => fail_view(v),
        },
        (WaitingView::Ref { from, to }, EventView::RefChecked { exists, has_definition }) => {
            if exists && has_definition {
                enter_root(v, to)
            } else {
                advance(WalkerView { warnings: v.warnings.push(WarningView::DanglingRef { from, to }), ..v })
            }
        },
        _ => v,
    }
}

// ---------------------------------------------------------------------------
// What every state of a walk keeps.

/// The paths of the registered roots.
pub open spec fn root_paths(v: WalkerView) -> Seq<Seq<char>> {
    v.roots.map_values(|r: RootView| r.path)
}

/// `p` is a registered root.
pub open spec fn is_root(v: WalkerView, p: Seq<char>) -> bool {
    root_paths(v).contains(p)
}

/// A frame works for a registered root.
pub open spec fn frame_owned(v: WalkerView, f: FrameView) -> bool {
    match f {
        FrameView::Entries { owner, .. } => is_root(v, owner),
        FrameView::Refs { root, .. } => is_root(v, root),
    }
}

/// What the walker waits for belongs to a registered root; a root whose
/// definition is awaited is visited and not yet registered; a failed walk
/// waits for nothing.
pub open spec fn waiting_ok(v: WalkerView) -> bool {
    &&& v.failed ==> v.waiting is Finished
    &&& match v.waiting {
        WaitingView::Definition { root } => v.visited.contains(root) && !is_root(v, root),
        WaitingView::Listing { owner, .. } => is_root(v, owner),
        WaitingView::File { owner, .. } => is_root(v, owner),
        WaitingView::Ref { from, .. } => is_root(v, from),
        _ => true,
    }
}

/// What holds of every state apart from what it waits for: no root is
/// visited twice, no root is registered twice, every registered root was visited, every file belongs
/// to a registered root, and all pending work belongs to registered roots.
pub open spec fn walker_core(v: WalkerView) -> bool {
    &&& v.visited.no_duplicates()
    &&& root_paths(v).no_duplicates()
    &&& forall|i: int| 0 <= i < v.roots.len() ==> v.visited.contains(#[trigger] v.roots[i].path)
    &&& forall|i: int| 0 <= i < v.files.len() ==> is_root(v, #[trigger] v.files[i].root)
    &&& forall|i: int| 0 <= i < v.frames.len() ==> frame_owned(v, #[trigger] v.frames[i])
}

/// What holds of every state of a walk.
pub open spec fn walker_inv(v: WalkerView) -> bool {
    walker_core(v) && waiting_ok(v)
}

/// `a` begins `b`.
pub open spec fn extends<A>(a: Seq<A>, b: Seq<A>) -> bool {
    a.len() <= b.len() && b.take(a.len() as int) == a
}

proof fn lemma_extends_trans<A>(a: Seq<A>, b: Seq<A>, c: Seq<A>)
    requires
        extends(a, b),
        extends(b, c),
    ensures
        extends(a, c),
{
    assert(c.take(a.len() as int) =~= b.take(a.len() as int));
}

/// Carrying on keeps the invariant, registers nothing, and only adds to
/// the visited roots and seen inodes; a root whose definition it asks for
/// had not been visited.
proof fn lemma_advance(v: WalkerView)
    requires
        walker_core(v),
        !v.failed,
    ensures
        walker_inv(advance(v)),
        advance(v).files == v.files,
        advance(v).roots == v.roots,
        advance(v).warnings == v.warnings,
        advance(v).home == v.home,
        advance(v).failed == v.failed,
        extends(v.visited, advance(v).visited),
        v.seen.subset_of(advance(v).seen),
        advance(v).waiting matches WaitingView::Definition { root } ==> !v.visited.contains(root),
    decreases work(v.frames),
{
    if v.frames.len() > 0 {
        assert(frame_owned(v, v.frames[v.frames.len() - 1]));
        match v.frames.last() {
            FrameView::Refs { root, refs, next } => {
                if next >= refs.len() {
                    lemma_work_pop(v.frames);
                    lemma_advance(popped(v));
                } else {
                    assert(v.visited.take(v.visited.len() as int) =~= v.visited);
                }
            },
            FrameView::Entries { dir, owner, exclude, entries, next } => {
                if next < entries.len() {
                    let f = FrameView::Entries { dir, owner, exclude, entries, next: next + 1 };
                    let v1 = with_top(v, f);
                    lemma_work_top(v.frames, f);
                    assert forall|i: int| 0 <= i < v1.frames.len() implies frame_owned(
                        v1,
                        #[trigger] v1.frames[i],
                    ) by {
                        if i < v.frames.len() - 1 {
                            assert(v1.frames[i] == v.frames[i]);
                        }
                    }
                    match entry_step(entries[next as int], exclude, v.seen, v.visited, dir, v.home) {
                        EntryStep::Skip => {
                            lemma_advance(v1);
                        },
                        EntryStep::Mark { inode } => {
                            let v2 = WalkerView { seen: v1.seen.insert(inode), ..v1 };
                            lemma_advance(v2);
                            assert(v.seen.subset_of(v2.seen));
                        },
                        EntryStep::File { path, size, modified_bits } => {
                            assert(v.visited.take(v.visited.len() as int) =~= v.visited);
                        },
                        EntryStep::SubRoot { inode, root } => {
                            let w = advance(v);
                            assert(w.visited.take(v.visited.len() as int) =~= v.visited);
                            assert(w.visited.last() == root);
                            assert forall|i: int| 0 <= i < w.roots.len() implies w.visited.contains(
                                #[trigger] w.roots[i].path,
                            ) by {
                                let j = choose|j: int| 0 <= j < v.visited.len() && v.visited[j] == v.roots[i].path;
                                assert(w.visited[j] == v.visited[j]);
                            }
                            assert(!is_root(w, root)) by {
                                if is_root(w, root) {
                                    let j = choose|j: int| 0 <= j < root_paths(v).len() && root_paths(v)[j] == root;
                                    assert(v.visited.contains(v.roots[j].path));
                                }
                            }
                        },
                        EntryStep::Descend { inode, dir: sub } => {
                            let w = advance(v);
                            assert(w.visited.take(v.visited.len() as int) =~= v.visited);
                        },
                    }
                } else {
                    lemma_work_pop(v.frames);
                    lemma_advance(popped(v));
                }
            },
        }
    } else {
        assert(v.visited.take(v.visited.len() as int) =~= v.visited);
    }
}


proof fn lemma_enter_root(v: WalkerView, r: Seq<char>)
    requires
        walker_core(v),
        !v.failed,
    ensures
        walker_inv(enter_root(v, r)),
        enter_root(v, r).files == v.files,
        enter_root(v, r).roots == v.roots,
        enter_root(v, r).warnings == v.warnings,
        enter_root(v, r).home == v.home,
        extends(v.visited, enter_root(v, r).visited),
        v.seen.subset_of(enter_root(v, r).seen),
        enter_root(v, r).waiting matches WaitingView::Definition { root } ==> !v.visited.contains(root),
{
    if v.visited.contains(r) {
        lemma_advance(v);
    } else {
        let w = enter_root(v, r);
        assert(w.visited.take(v.visited.len() as int) =~= v.visited);
        assert(w.visited.last() == r);
        assert forall|i: int| 0 <= i < w.roots.len() implies w.visited.contains(#[trigger] w.roots[i].path) by {
            let j = choose|j: int| 0 <= j < v.visited.len() && v.visited[j] == v.roots[i].path;
            assert(w.visited[j] == v.visited[j]);
        }
        assert(!is_root(w, r)) by {
            if is_root(w, r) {
                let j = choose|j: int| 0 <= j < root_paths(v).len() && root_paths(v)[j] == r;
                assert(v.visited.contains(v.roots[j].path));
            }
        }
    }
}

proof fn lemma_on_event(v: WalkerView, e: EventView)
    requires
        walker_inv(v),
    ensures
        walker_inv(on_event(v, e)),
        extends(v.files, on_event(v, e).files),
        extends(v.roots, on_event(v, e).roots),
        extends(v.warnings, on_event(v, e).warnings),
        extends(v.visited, on_event(v, e).visited),
        v.seen.subset_of(on_event(v, e).seen),
        on_event(v, e).home == v.home,
        on_event(v, e).waiting != v.waiting ==> (on_event(v, e).waiting matches WaitingView::Definition {
            root,
        } ==> !v.visited.contains(root) && on_event(v, e).visited.contains(root)),
{
    let w = on_event(v, e);
    assert(v.files.take(v.files.len() as int) =~= v.files);
    assert(v.roots.take(v.roots.len() as int) =~= v.roots);
    assert(v.warnings.take(v.warnings.len() as int) =~= v.warnings);
    assert(v.visited.take(v.visited.len() as int) =~= v.visited);
    match (v.waiting, e) {
        (WaitingView::Seed { dir }, EventView::SeedChecked(found)) => {
            if found {
                lemma_enter_root(v, dir);
            }
        },
        (WaitingView::Definition { root }, EventView::Definition(d)) => {
            if let Some(d) = d {
                let refs = refs_of(d.refs, v.home);
                assert(root_paths(w) =~= root_paths(v).push(root));
                assert(w.roots.take(v.roots.len() as int) =~= v.roots);
                assert forall|i: int| 0 <= i < w.roots.len() implies w.visited.contains(
                    #[trigger] w.roots[i].path,
                ) by {
                    if i < v.roots.len() {
                        assert(w.roots[i] == v.roots[i]);
                    }
                }
                assert forall|i: int| 0 <= i < w.files.len() implies is_root(w, #[trigger] w.files[i].root) by {
                    assert(is_root(v, v.files[i].root));
                    let j = choose|j: int| 0 <= j < root_paths(v).len() && root_paths(v)[j] == v.files[i].root;
                    assert(root_paths(w)[j] == root_paths(v)[j]);
                }
                assert forall|i: int| 0 <= i < w.frames.len() implies frame_owned(w, #[trigger] w.frames[i]) by {
                    if i < v.frames.len() {
                        assert(w.frames[i] == v.frames[i]);
                        assert(frame_owned(v, v.frames[i]));
                        match v.frames[i] {
                            FrameView::Entries { owner, .. } => {
                                let j = choose|j: int| 0 <= j < root_paths(v).len() && root_paths(v)[j] == owner;
                                assert(root_paths(w)[j] == root_paths(v)[j]);
                            },
                            FrameView::Refs { root: r2, .. } => {
                                let j = choose|j: int| 0 <= j < root_paths(v).len() && root_paths(v)[j] == r2;
                                assert(root_paths(w)[j] == root_paths(v)[j]);
                            },
                        }
                    } else {
                        assert(root_paths(w)[v.roots.len() as int] == root);
                    }
                }
                assert(root_paths(w)[v.roots.len() as int] == root);
            }
        },
        (WaitingView::Listing { dir, owner, exclude }, EventView::Listed(l)) => {
            if let Some(entries) = l {
                let u = WalkerView {
                    frames: v.frames.push(FrameView::Entries { dir, owner, exclude, entries, next: 0 }),
                    ..v
                };
                assert forall|i: int| 0 <= i < u.frames.len() implies frame_owned(u, #[trigger] u.frames[i]) by {
                    if i < v.frames.len() {
                        assert(u.frames[i] == v.frames[i]);
                    }
                }
                lemma_advance(u);
            } else {
                lemma_advance(v);
            }
        },
        (WaitingView::File { path, size, modified_bits, owner }, EventView::FileRead(c)) => {
            if let Some(bytes) = c {
                let u = WalkerView {
                    files: v.files.push(
                        WalkedFileView { path, hash: content_hash(bytes), size, modified_bits, root: owner },
                    ),
                    ..v
                };
                assert(u.files.take(v.files.len() as int) =~= v.files);
                assert forall|i: int| 0 <= i < u.files.len() implies is_root(u, #[trigger] u.files[i].root) by {
                    if i < v.files.len() {
                        assert(u.files[i] == v.files[i]);
                    }
                }
                lemma_advance(u);
            }
        },
        (WaitingView::Ref { from, to }, EventView::RefChecked { exists, has_definition }) => {
            if exists && has_definition {
                lemma_enter_root(v, to);
            } else {
                let u = WalkerView { warnings: v.warnings.push(WarningView::DanglingRef { from, to }), ..v };
                assert(u.warnings.take(v.warnings.len() as int) =~= v.warnings);
                lemma_advance(u);
            }
        },
        _ => {},
    }
}

/// Every answer keeps what holds of every state of a walk: no root is
/// visited or registered twice, no directory inode is walked twice, and
/// every file and all pending work belong to a registered root.
pub proof fn law_step_keeps_invariant(v: WalkerView, e: EventView)
    requires
        walker_inv(v),
    ensures
        walker_inv(on_event(v, e)),
{
    lemma_on_event(v, e);
}

/// An answer only adds: the files, roots and warnings found so far and the
/// roots visited all stay, in order, at the front, and every directory
/// inode seen stays seen.
pub proof fn law_step_only_adds(v: WalkerView, e: EventView)
    requires
        walker_inv(v),
    ensures
        extends(v.files, on_event(v, e).files),
        extends(v.roots, on_event(v, e).roots),
        extends(v.warnings, on_event(v, e).warnings),
        extends(v.visited, on_event(v, e).visited),
        v.seen.subset_of(on_event(v, e).seen),
{
    lemma_on_event(v, e);
}

/// A root's definition is asked for only when the root is first visited:
/// a new request names a root that was not visited before the answer and
/// is visited after it. With `law_step_only_adds`, no definition is read
/// twice in a walk.
pub proof fn law_definition_read_once(v: WalkerView, e: EventView)
    requires
        walker_inv(v),
    ensures
        on_event(v, e).waiting != v.waiting ==> (on_event(v, e).waiting matches WaitingView::Definition {
            root,
        } ==> !v.visited.contains(root) && on_event(v, e).visited.contains(root)),
{
    lemma_on_event(v, e);
}

// ---------------------------------------------------------------------------
// The executable machine.

enum Frame {
    Entries { dir: NodePath, owner: NodePath, exclude: Vec<String>, entries: Vec<DirEntry>, next: usize },
    Refs { root: NodePath, refs: Vec<NodePath>, next: usize },
}

impl View for Frame {
    type V = FrameView;

    closed spec fn view(&self) -> FrameView {
        match self {
            Frame::Entries { dir, owner, exclude, entries, next } => FrameView::Entries {
                dir: dir@,
                owner: owner@,
                exclude: strings_view(exclude@),
                entries: entries_view(entries@),
                next: *next as nat,
            },
            Frame::Refs { root, refs, next } => FrameView::Refs {
                root: root@,
                refs: paths_view(refs@),
                next: *next as nat,
            },
        }
    }
}

spec fn frames_view(v: Seq<Frame>) -> Seq<FrameView> {
    v.map_values(|f: Frame| f@)
}

enum Waiting {
    Seed { dir: NodePath },
    Definition { root: NodePath },
    Listing { dir: NodePath, owner: NodePath, exclude: Vec<String> },
    File { path: NodePath, size: u64, modified_bits: u64, owner: NodePath },
    Ref { from: NodePath, to: NodePath },
    Finished,
}

impl View for Waiting {
    type V = WaitingView;

    closed spec fn view(&self) -> WaitingView {
        match self {
            Waiting::Seed { dir } => WaitingView::Seed { dir: dir@ },
            Waiting::Definition { root } => WaitingView::Definition { root: root@ },
            Waiting::Listing { dir, owner, exclude } => WaitingView::Listing {
                dir: dir@,
                owner: owner@,
                exclude: strings_view(exclude@),
            },
            Waiting::File { path, size, modified_bits, owner } => WaitingView::File {
                path: path@,
                size: *size,
                modified_bits: *modified_bits,
                owner: owner@,
            },
            Waiting::Ref { from, to } => WaitingView::Ref { from: from@, to: to@ },
            Waiting::Finished => WaitingView::Finished,
        }
    }
}

/// What the caller is asked to find out next.
pub enum WalkAction {
    /// Whether `dir` holds a `quine.yaml`.
    CheckSeed { dir: NodePath },
    /// Read and parse `root/quine.yaml`.
    ReadDefinition { root: NodePath },
    /// List the entries of `dir`, sorted by name.
    ListDir { dir: NodePath },
    /// Read the content of the file `path`.
    ReadFile { path: NodePath },
    /// Whether the directory `dir` exists, and whether it holds a
    /// `quine.yaml`.
    CheckRef { dir: NodePath },
    /// The walk is over: `Walker::finish` gives the result.
    Done,
    /// The walk failed: `Walker::finish` gives the error.
    Failed,
}

impl View for WalkAction {
    type V = ActionView;

    open spec fn view(&self) -> ActionView {
        match self {
            WalkAction::CheckSeed { dir } => ActionView::CheckSeed(dir@),
            WalkAction::ReadDefinition { root } => ActionView::ReadDefinition(root@),
            WalkAction::ListDir { dir } => ActionView::ListDir(dir@),
            WalkAction::ReadFile { path } => ActionView::ReadFile(path@),
            WalkAction::CheckRef { dir } => ActionView::CheckRef(dir@),
            WalkAction::Done => ActionView::Done,
            WalkAction::Failed => ActionView::Failed,
        }
    }
}

/// What the caller found.
pub enum WalkEvent {
    /// Whether the seed holds a `quine.yaml`.
    SeedChecked(bool),
    /// The parsed definition, or the error reading or parsing it.
    Definition(Result<DefinitionFile, LifeError>),
    /// The entries of the directory, sorted by name; `None` when it could
    /// not be read (the directory is then skipped).
    Listed(Option<Vec<DirEntry>>),
    /// The content of the file, or the error reading it.
    FileRead(Result<Vec<u8>, std::io::Error>),
    /// Whether the ref's directory exists and holds a `quine.yaml`.
    RefChecked { exists: bool, has_definition: bool },
}

impl View for WalkEvent {
    type V = EventView;

    open spec fn view(&self) -> EventView {
        match self {
            WalkEvent::SeedChecked(b) => EventView::SeedChecked(*b),
            WalkEvent::Definition(r) => EventView::Definition(
                match r {
                    Ok(d) => Some(d@),
                    Err(_) => None,
                },
            ),
            WalkEvent::Listed(l) => EventView::Listed(
                match l {
                    Some(v) => Some(entries_view(v@)),
                    None => None,
                },
            ),
            WalkEvent::FileRead(r) => EventView::FileRead(
                match r {
                    Ok(b) => Some(b@),
                    Err(_) => None,
                },
            ),
            WalkEvent::RefChecked { exists, has_definition } => EventView::RefChecked {
                exists: *exists,
                has_definition: *has_definition,
            },
        }
    }
}

/// The error a failing answer `e` to what `w` waits for brings: `NoSeed`
/// for a seed without a definition file, the reading or parsing error of a
/// definition, or the reading error of a file.
pub open spec fn fails_with(w: WaitingView, e: WalkEvent, err: LifeError) -> bool {
    match (w, e) {
        (WaitingView::Seed { dir }, WalkEvent::SeedChecked(found)) => !found && (
        err matches LifeError::NoSeed { path } && path@ == dir),
        (WaitingView::Definition { .. }, WalkEvent::Definition(Err(x))) => err == x,
        (WaitingView::File { .. }, WalkEvent::FileRead(Err(x))) => err == LifeError::Io(x),
        _ => false,
    }
}

/// A walk in progress.
pub struct Walker {
    home: Option<String>,
    files: Vec<WalkedFile>,
    roots: Vec<Root>,
    warnings: Vec<LifeWarning>,
    seen: HashSet<u64>,
    visited: Vec<NodePath>,
    frames: Vec<Frame>,
    waiting: Waiting,
    error: Option<LifeError>,
    excludes: Ghost<Seq<(Seq<char>, Seq<Seq<char>>)>>,
}

impl View for Walker {
    type V = WalkerView;

    closed spec fn view(&self) -> WalkerView {
        WalkerView {
            home: opt_string(self.home),
            files: files_view(self.files@),
            roots: roots_view(self.roots@),
            warnings: warnings_view(self.warnings@),
            seen: self.seen@,
            visited: paths_view(self.visited@),
            frames: frames_view(self.frames@),
            waiting: self.waiting@,
            failed: self.error is Some,
            excludes: self.excludes@,
        }
    }
}

/// The home directory as a borrowed string.
fn home_ref(h: &Option<String>) -> (r: Option<&str>)
    ensures
        opt_seq(r) == opt_string(*h),
{
    match h {
        Some(s) => Some(s.as_str()),
        None => None,
    }
}

/// The node paths the refs name; those that make no node are dropped.
fn ref_paths(refs: &Vec<RefEntry>, home: Option<&str>) -> (r: Vec<NodePath>)
    ensures
        paths_view(r@) == refs_of(refs@.map_values(|e: RefEntry| e.path@), opt_seq(home)),
{
    let ghost rv = refs@.map_values(|e: RefEntry| e.path@);
    let ghost f = |p: Seq<char>| node_new(p, opt_seq(home));
    let mut r: Vec<NodePath> = Vec::new();
    let mut i: usize = 0;
    while i < refs.len()
        invariant
            rv == refs@.map_values(|e: RefEntry| e.path@),
            f == |p: Seq<char>| node_new(p, opt_seq(home)),
            i <= refs@.len(),
            paths_view(r@) == rv.take(i as int).filter_map(f),
        decreases refs@.len() - i,
    {
        proof {
            assert(rv.take(i + 1).drop_last() =~= rv.take(i as int));
            assert(rv.take(i + 1).last() == refs@[i as int].path@);
        }
        match NodePath::new(refs[i].path.as_str(), home) {
            Some(p) => {
                let ghost before = r@;
                r.push(p);
                proof {
                    assert(paths_view(r@) =~= paths_view(before) + seq![p@]);
                }
            },
            None => {},
        }
        i = i + 1;
    }
    proof {
        assert(rv.take(i as int) =~= rv);
    }
    r
}

/// An owned copy of an optional string.
fn owned(o: Option<&str>) -> (r: Option<String>)
    ensures
        opt_string(r) == opt_seq(o),
{
    match o {
        Some(s) => Some(string_lit(s)),
        None => None,
    }
}

/// Begin the walk from a seed directory, resolved against the working
/// directory `cwd` (and `home` for a `~` path). A seed that cannot be
/// resolved is an I/O error of kind `InvalidInput`.
pub fn walk_seed(seed: &str, home: Option<&str>, cwd: Option<&str>) -> (r: Result<Walker, LifeError>)
    ensures
        match r {
            Ok(w) => node_from_cwd(seed@, opt_seq(home), opt_seq(cwd)) matches Some(d) && w@
                == start_view(d, opt_seq(home)) && w.error() is None && walker_inv(w@),
            Err(e) => node_from_cwd(seed@, opt_seq(home), opt_seq(cwd)) is None && e is Io,
        },
{
    match NodePath::from_cwd(seed, home, cwd) {
        Some(dir) => {
            let w = Walker {
                home: owned(home),
                files: Vec::new(),
                roots: Vec::new(),
                warnings: Vec::new(),
                seen: HashSet::new(),
                visited: Vec::new(),
                frames: Vec::new(),
                waiting: Waiting::Seed { dir },
                error: None,
                excludes: Ghost(Seq::empty()),
            };
            proof {
                assert(w@ =~= start_view(w.waiting@->Seed_dir, opt_seq(home)));
            }
            Ok(w)
        },
        None => {
            let mut msg = string_lit("cannot resolve seed path: ");
            msg.append(seed);
            Err(LifeError::Io(invalid_input(msg)))
        },
    }
}

/// Calls `std::io::Error::new` with kind `InvalidInput` and the message
/// `msg`. Nothing is stated of the error value, which is opaque here.
#[verifier::external_body]
fn invalid_input(msg: String) -> std::io::Error {
    std::io::Error::new(std::io::ErrorKind::InvalidInput, msg)
}

impl Walker {
    /// The error the walk failed with, if it did.
    pub closed spec fn error(&self) -> Option<LifeError> {
        self.error
    }

    /// What the walker asks for next.
    pub fn action(&self) -> (a: WalkAction)
        ensures
            a@ == action_of(self@),
    {
        match &self.waiting {
            Waiting::Seed { dir } => WalkAction::CheckSeed { dir: dir.clone() },
            Waiting::Definition { root } => WalkAction::ReadDefinition { root: root.clone() },
            Waiting::Listing { dir, .. } => WalkAction::ListDir { dir: dir.clone() },
            Waiting::File { path, .. } => WalkAction::ReadFile { path: path.clone() },
            Waiting::Ref { to, .. } => WalkAction::CheckRef { dir: to.clone() },
            Waiting::Finished => if self.error.is_some() {
                WalkAction::Failed
            } else {
                WalkAction::Done
            },
        }
    }

    /// Carry on with the stack until something outside is needed.
    fn advance(&mut self)
        ensures
            final(self)@ == advance(old(self)@),
            final(self).error == old(self).error,
    {
        let ghost target = advance(self@);
        let ghost err0 = self.error;
        loop
            invariant
                advance(self@) == target,
                target == advance(old(self)@),
                self.error == err0,
                err0 == old(self).error,
            decreases work(self@.frames),
        {
            let ghost pre = self@;
            let ghost pre_frames = self.frames@;
            let top = self.frames.pop();
            proof {
                if pre_frames.len() > 0 {
                    assert(frames_view(self.frames@) =~= pre.frames.drop_last());
                    assert(top == Some(pre_frames.last()));
                    assert(pre.frames.last() == pre_frames.last()@);
                } else {
                    assert(top is None);
                    assert(pre.frames.len() == 0);
                }
            }
            match top {
                None => {
                    self.waiting = Waiting::Finished;
                    proof {
                        assert(self@ =~= waiting_on(pre, WaitingView::Finished));
                    }
                    return;
                },
                Some(Frame::Refs { root, refs, next }) => {
                    if next < refs.len() {
                        let to = refs[next].clone();
                        let from = root.clone();
                        let ghost nf = FrameView::Refs { root: root@, refs: paths_view(refs@), next: (next + 1) as nat };
                        self.frames.push(Frame::Refs { root, refs, next: next + 1 });
                        self.waiting = Waiting::Ref { from, to };
                        proof {
                            assert(frames_view(self.frames@) =~= pre.frames.update(pre.frames.len() - 1, nf));
                            assert(self@ =~= waiting_on(with_top(pre, nf), self.waiting@));
                        }
                        return;
                    }
                    proof {
                        lemma_work_pop(pre.frames);
                        assert(self@ =~= popped(pre));
                    }
                },
                Some(Frame::Entries { dir, owner, exclude, entries, next }) => {
                    if next < entries.len() {
                        let d = decide_entry(
                            &entries[next],
                            &exclude,
                            &self.seen,
                            &self.visited,
                            &dir,
                            home_ref(&self.home),
                        );
                        let ghost nf = FrameView::Entries {
                            dir: dir@,
                            owner: owner@,
                            exclude: strings_view(exclude@),
                            entries: entries_view(entries@),
                            next: (next + 1) as nat,
                        };
                        let ghost v1 = with_top(pre, nf);
                        proof {
                            assert(entries_view(entries@)[next as int] == entries@[next as int]@);
                            lemma_work_top(pre.frames, nf);
                        }
                        match d {
                            EntryDecision::Skip => {
                                self.frames.push(Frame::Entries { dir, owner, exclude, entries, next: next + 1 });
                                proof {
                                    assert(frames_view(self.frames@) =~= v1.frames);
                                    assert(self@ =~= v1);
                                }
                            },
                            EntryDecision::Mark { inode } => {
                                self.frames.push(Frame::Entries { dir, owner, exclude, entries, next: next + 1 });
                                self.seen.insert(inode);
                                proof {
                                    assert(frames_view(self.frames@) =~= v1.frames);
                                    assert(self@ =~= WalkerView { seen: v1.seen.insert(inode), ..v1 });
                                }
                            },
                            EntryDecision::File { path, size, modified_bits } => {
                                let o = owner.clone();
                                self.frames.push(Frame::Entries { dir, owner, exclude, entries, next: next + 1 });
                                self.waiting = Waiting::File { path, size, modified_bits, owner: o };
                                proof {
                                    assert(frames_view(self.frames@) =~= v1.frames);
                                    assert(self@ =~= waiting_on(v1, self.waiting@));
                                }
                                return;
                            },
                            EntryDecision::SubRoot { inode, root } => {
                                self.frames.push(Frame::Entries { dir, owner, exclude, entries, next: next + 1 });
                                self.seen.insert(inode);
                                self.visited.push(root.clone());
                                self.waiting = Waiting::Definition { root };
                                proof {
                                    assert(frames_view(self.frames@) =~= v1.frames);
                                    assert(paths_view(self.visited@) =~= v1.visited.push(self.waiting@->Definition_root));
                                }
                                return;
                            },
                            EntryDecision::Descend { inode, dir: sub } => {
                                let o = owner.clone();
                                let ex = clone_strings(&exclude);
                                self.frames.push(Frame::Entries { dir, owner, exclude, entries, next: next + 1 });
                                self.seen.insert(inode);
                                self.waiting = Waiting::Listing { dir: sub, owner: o, exclude: ex };
                                proof {
                                    assert(frames_view(self.frames@) =~= v1.frames);
                                }
                                return;
                            },
                        }
                    } else {
                        proof {
                            lemma_work_pop(pre.frames);
                            assert(self@ =~= popped(pre));
                        }
                    }
                },
            }
        }
    }

    /// Walk root `r` unless it was visited already.
    fn enter_root(&mut self, r: NodePath)
        ensures
            final(self)@ == enter_root(old(self)@, r@),
            final(self).error == old(self).error,
    {
        if contains_path(&self.visited, &r) {
            self.advance();
        } else {
            let ghost pre = self@;
            self.visited.push(r.clone());
            self.waiting = Waiting::Definition { root: r };
            proof {
                assert(paths_view(self.visited@) =~= pre.visited.push(self.waiting@->Definition_root));
                assert(self@ =~= enter_root(pre, self.waiting@->Definition_root));
            }
        }
    }

    /// Stop the walk with `err`.
    fn fail(&mut self, err: LifeError)
        ensures
            final(self)@ == fail_view(old(self)@),
            final(self).error == Some(err),
    {
        self.waiting = Waiting::Finished;
        self.error = Some(err);
        proof {
            assert(self@ =~= fail_view(old(self)@));
        }
    }

    /// Take the caller's answer to the last action: move to the next state
    /// and say what is needed next.
    pub fn step(&mut self, event: WalkEvent) -> (a: WalkAction)
        requires
            walker_inv(old(self)@),
        ensures
            final(self)@ == on_event(old(self)@, event@),
            walker_inv(final(self)@),
            a@ == action_of(final(self)@),
            if !old(self)@.failed && final(self)@.failed {
                final(self).error() matches Some(err) && fails_with(old(self)@.waiting, event, err)
            } else {
                final(self).error() == old(self).error()
            },
    {
        proof {
            lemma_on_event(self@, event@);
        }
        let ghost pre = self@;
        let ghost ev = event@;
        let mut waiting = Waiting::Finished;
        std::mem::swap(&mut waiting, &mut self.waiting);
        proof {
            assert(waiting@ == pre.waiting);
        }
        match waiting {
            Waiting::Seed { dir } => match event {
                WalkEvent::SeedChecked(found) => {
                    if found {
                        self.waiting = Waiting::Seed { dir: dir.clone() };
                        proof {
                            assert(self@ =~= pre);
                        }
                        self.enter_root(dir);
                    } else {
                        let path = dir.clone();
                        self.waiting = Waiting::Seed { dir };
                        proof {
                            assert(self@ =~= pre);
                        }
                        self.fail(LifeError::NoSeed { path });
                    }
                },
                _ => {
                    self.waiting = Waiting::Seed { dir };
                    proof {
                        assert(self@ =~= pre);
                    }
                },
            },
            Waiting::Definition { root } => match event {
                WalkEvent::Definition(Ok(def)) => {
                    let refs = ref_paths(&def.refs, home_ref(&self.home));
                    let refs2 = clone_paths(&refs);
                    let ghost rv = paths_view(refs@);
                    self.excludes = Ghost(
                        self.excludes@.push((root@, strings_view(def.exclude@))),
                    );
                    self.roots.push(Root { path: root.clone(), name: def.name, refs });
                    self.frames.push(Frame::Refs { root: root.clone(), refs: refs2, next: 0 });
                    self.waiting = Waiting::Listing { dir: root.clone(), owner: root, exclude: def.exclude };
                    proof {
                        assert(roots_view(self.roots@) =~= on_event(pre, ev).roots);
                        assert(frames_view(self.frames@) =~= on_event(pre, ev).frames);
                        assert(self@ =~= on_event(pre, ev));
                    }
                },
                WalkEvent::Definition(Err(e)) => {
                    self.waiting = Waiting::Definition { root };
                    proof {
                        assert(self@ =~= pre);
                    }
                    self.fail(e);
                },
                _ => {
                    self.waiting = Waiting::Definition { root };
                    proof {
                        assert(self@ =~= pre);
                    }
                },
            },
            Waiting::Listing { dir, owner, exclude } => match event {
                WalkEvent::Listed(Some(entries)) => {
                    self.frames.push(Frame::Entries { dir, owner, exclude, entries, next: 0 });
                    let ghost mid = self@;
                    proof {
                        assert(mid =~= WalkerView { frames: mid.frames, waiting: WaitingView::Finished, ..pre });
                    }
                    self.advance();
                    proof {
                        assert(advance(mid) == advance(WalkerView { frames: mid.frames, ..pre })) by {
                            lemma_advance_ignores_waiting(mid, WalkerView { frames: mid.frames, ..pre });
                        }
                        assert(mid.frames =~= pre.frames.push(
                            FrameView::Entries {
                                dir: pre.waiting->Listing_dir,
                                owner: pre.waiting->Listing_owner,
                                exclude: pre.waiting->Listing_exclude,
                                entries: ev->Listed_0->0,
                                next: 0,
                            },
                        ));
                    }
                },
                WalkEvent::Listed(None) => {
                    let ghost mid = self@;
                    proof {
                        lemma_advance_ignores_waiting(mid, pre);
                    }
                    self.advance();
                },
                _ => {
                    self.waiting = Waiting::Listing { dir, owner, exclude };
                    proof {
                        assert(self@ =~= pre);
                    }
                },
            },
            Waiting::File { path, size, modified_bits, owner } => match event {
                WalkEvent::FileRead(Ok(bytes)) => {
                    let hash = hash_content(bytes.as_slice());
                    self.files.push(WalkedFile { path, hash, size, modified_bits, root: owner });
                    let ghost mid = self@;
                    let ghost u = on_event_file_state(pre, bytes@);
                    proof {
                        assert(mid.files =~= u.files);
                        lemma_advance_ignores_waiting(mid, u);
                    }
                    self.advance();
                },
                WalkEvent::FileRead(Err(e)) => {
                    self.waiting = Waiting::File { path, size, modified_bits, owner };
                    proof {
                        assert(self@ =~= pre);
                    }
                    self.fail(LifeError::Io(e));
                },
                _ => {
                    self.waiting = Waiting::File { path, size, modified_bits, owner };
                    proof {
                        assert(self@ =~= pre);
                    }
                },
            },
            Waiting::Ref { from, to } => match event {
                WalkEvent::RefChecked { exists, has_definition } => {
                    if exists && has_definition {
                        self.waiting = Waiting::Ref { from, to: to.clone() };
                        proof {
                            assert(self@ =~= pre);
                        }
                        self.enter_root(to);
                    } else {
                        self.warnings.push(LifeWarning::DanglingRef { from, to });
                        let ghost mid = self@;
                        let ghost u = WalkerView {
                            warnings: pre.warnings.push(
                                WarningView::DanglingRef { from: pre.waiting->Ref_from, to: pre.waiting->Ref_to },
                            ),
                            ..pre
                        };
                        proof {
                            assert(mid.warnings =~= u.warnings);
                            lemma_advance_ignores_waiting(mid, u);
                        }
                        self.advance();
                    }
                },
                _ => {
                    self.waiting = Waiting::Ref { from, to };
                    proof {
                        assert(self@ =~= pre);
                    }
                },
            },
            Waiting::Finished => {
                proof {
                    assert(self@ =~= pre);
                }
            },
        }
        self.action()
    }

    /// The result of the walk, or the error it failed with.
    pub fn finish(self) -> (r: Result<WalkResult, LifeError>)
        ensures
            match r {
                Ok(res) => !self@.failed && res@.files == self@.files && res@.roots == self@.roots
                    && res@.warnings == self@.warnings,
                Err(e) => self@.failed && self.error() == Some(e),
            },
    {
        match self.error {
            Some(e) => Err(e),
            None => Ok(WalkResult { files: self.files, roots: self.roots, warnings: self.warnings }),
        }
    }
}

/// The state a file's content registers the file in, before carrying on.
spec fn on_event_file_state(v: WalkerView, bytes: Seq<u8>) -> WalkerView {
    match v.waiting {
        WaitingView::File { path, size, modified_bits, owner } => WalkerView {
            files: v.files.push(
                WalkedFileView { path, hash: content_hash(bytes), size, modified_bits, root: owner },
            ),
            ..v
        },
        _ => v,
    }
}

/// Carrying on does not depend on what was waited for.
proof fn lemma_advance_ignores_waiting(a: WalkerView, b: WalkerView)
    requires
        a.home == b.home,
        a.files == b.files,
        a.roots == b.roots,
        a.warnings == b.warnings,
        a.seen == b.seen,
        a.visited == b.visited,
        a.frames == b.frames,
        a.failed == b.failed,
        a.excludes == b.excludes,
    ensures
        advance(a) == advance(b),
    decreases work(a.frames),
{
    if a.frames.len() > 0 {
        match a.frames.last() {
            FrameView::Refs { root, refs, next } => {
                if next >= refs.len() {
                    lemma_work_pop(a.frames);
                    lemma_advance_ignores_waiting(popped(a), popped(b));
                } else {
                    assert(advance(a) =~= advance(b));
                }
            },
            FrameView::Entries { dir, owner, exclude, entries, next } => {
                if next < entries.len() {
                    let f = FrameView::Entries { dir, owner, exclude, entries, next: next + 1 };
                    lemma_work_top(a.frames, f);
                    let a1 = with_top(a, f);
                    let b1 = with_top(b, f);
                    match entry_step(entries[next as int], exclude, a.seen, a.visited, dir, a.home) {
                        EntryStep::Skip => {
                            lemma_advance_ignores_waiting(a1, b1);
                        },
                        EntryStep::Mark { inode } => {
                            lemma_advance_ignores_waiting(
                                WalkerView { seen: a1.seen.insert(inode), ..a1 },
                                WalkerView { seen: b1.seen.insert(inode), ..b1 },
                            );
                        },
                        _ => {
                            assert(advance(a) =~= advance(b));
                        },
                    }
                } else {
                    lemma_work_pop(a.frames);
                    lemma_advance_ignores_waiting(popped(a), popped(b));
                }
            },
        }
    } else {
        assert(advance(a) =~= advance(b));
    }
}

// ---------------------------------------------------------------------------
// Files stay in their root's subtree.

/// Every name of a listing is a plain name, as a directory listing's are.
pub open spec fn plain_entries(es: Seq<EntryView>) -> bool {
    forall|i: int| 0 <= i < es.len() ==> plain_name(#[trigger] es[i].name)
}

/// A frame's directory lies under its owner and is rooted, its entries are
/// plainly named, and the refs it follows are rooted.
pub open spec fn frame_in_subtree(f: FrameView) -> bool {
    match f {
        FrameView::Entries { dir, owner, entries, .. } => rooted(dir) && path_starts_with(dir, owner)
            && plain_entries(entries),
        FrameView::Refs { refs, .. } => forall|i: int| 0 <= i < refs.len() ==> rooted(#[trigger] refs[i]),
    }
}

/// What the walker waits for lies where the walk may go.
pub open spec fn waiting_in_subtree(w: WaitingView) -> bool {
    match w {
        WaitingView::Seed { dir } => rooted(dir),
        WaitingView::Definition { root } => rooted(root),
        WaitingView::Listing { dir, owner, .. } => rooted(dir) && path_starts_with(dir, owner),
        WaitingView::File { path, owner, .. } => path_starts_with(path, owner),
        WaitingView::Ref { to, .. } => rooted(to),
        WaitingView::Finished => true,
    }
}

/// Every file lies in the subtree of the root it is registered for, and
/// all pending work stays in the subtrees it belongs to.
pub open spec fn files_in_subtrees(v: WalkerView) -> bool {
    &&& forall|i: int| 0 <= i < v.files.len() ==> path_starts_with(#[trigger] v.files[i].path, v.files[i].root)
    &&& forall|i: int| 0 <= i < v.frames.len() ==> frame_in_subtree(#[trigger] v.frames[i])
}

/// The caller's answer names the entries of a listing plainly.
pub open spec fn answer_ok(v: WalkerView, e: EventView) -> bool {
    match e {
        EventView::Listed(Some(es)) => plain_entries(es),
        _ => true,
    }
}

/// The node paths of a definition's refs are rooted.
proof fn lemma_refs_rooted(rs: Seq<Seq<char>>, home: Option<Seq<char>>)
    ensures
        forall|i: int| 0 <= i < refs_of(rs, home).len() ==> rooted(#[trigger] refs_of(rs, home)[i]),
    decreases rs.len(),
{
    if rs.len() > 0 {
        lemma_refs_rooted(rs.drop_last(), home);
        let a = refs_of(rs.drop_last(), home);
        assert(refs_of(rs, home) == rs.drop_last().filter_map(|p: Seq<char>| node_new(p, home)) + match node_new(
            rs.last(),
            home,
        ) {
            Some(q) => seq![q],
            None => seq![],
        });
        if node_new(rs.last(), home) is Some {
            law_node_path_normal(rs.last(), home, home);
        }
        assert forall|i: int| 0 <= i < refs_of(rs, home).len() implies rooted(#[trigger] refs_of(rs, home)[i]) by {
            if i < a.len() {
                assert(refs_of(rs, home)[i] == a[i]);
            }
        }
    }
}

/// A walk begun by `walk_seed` starts in its subtree: the seed's node
/// path is rooted.
pub proof fn law_seed_is_rooted(seed: Seq<char>, home: Option<Seq<char>>, cwd: Option<Seq<char>>)
    requires
        node_from_cwd(seed, home, cwd) is Some,
    ensures
        files_in_subtrees(start_view(node_from_cwd(seed, home, cwd)->0, home)),
        waiting_in_subtree(start_view(node_from_cwd(seed, home, cwd)->0, home).waiting),
{
    law_from_cwd_normal(seed, home, cwd, home);
}

proof fn lemma_entry_in_subtree(
    e: EntryView,
    exclude: Seq<Seq<char>>,
    seen: Set<u64>,
    visited: Seq<Seq<char>>,
    dir: Seq<char>,
    owner: Seq<char>,
    home: Option<Seq<char>>,
)
    requires
        plain_name(e.name),
        rooted(dir),
        path_starts_with(dir, owner),
    ensures
        match entry_step(e, exclude, seen, visited, dir, home) {
            EntryStep::File { path, .. } => path_starts_with(path, owner),
            EntryStep::SubRoot { root, .. } => rooted(root),
            EntryStep::Descend { dir: sub, .. } => rooted(sub) && path_starts_with(sub, owner),
            _ => true,
        },
{
    lemma_rooted_entry(dir, e.name);
    let j = join(dir, e.name);
    let p = render(components(dir).push(Comp::Normal(e.name)));
    assert(!starts_with_tilde(j));
    assert(entry_path(dir, e.name, home) == Some(p));
    lemma_starts_with_trans(p, dir, owner);
}

proof fn lemma_advance_subtrees(v: WalkerView)
    requires
        files_in_subtrees(v),
    ensures
        files_in_subtrees(advance(v)),
        waiting_in_subtree(advance(v).waiting),
    decreases work(v.frames),
{
    if v.frames.len() > 0 {
        assert(frame_in_subtree(v.frames[v.frames.len() - 1]));
        match v.frames.last() {
            FrameView::Refs { root, refs, next } => {
                if next >= refs.len() {
                    lemma_work_pop(v.frames);
                    lemma_advance_subtrees(popped(v));
                } else {
                    let w = advance(v);
                    assert forall|i: int| 0 <= i < w.frames.len() implies frame_in_subtree(#[trigger] w.frames[i]) by {
                        if i < v.frames.len() - 1 {
                            assert(w.frames[i] == v.frames[i]);
                        }
                    }
                }
            },
            FrameView::Entries { dir, owner, exclude, entries, next } => {
                if next < entries.len() {
                    let f = FrameView::Entries { dir, owner, exclude, entries, next: next + 1 };
                    let v1 = with_top(v, f);
                    lemma_work_top(v.frames, f);
                    assert forall|i: int| 0 <= i < v1.frames.len() implies frame_in_subtree(#[trigger] v1.frames[i]) by {
                        if i < v.frames.len() - 1 {
                            assert(v1.frames[i] == v.frames[i]);
                        }
                    }
                    lemma_entry_in_subtree(entries[next as int], exclude, v.seen, v.visited, dir, owner, v.home);
                    match entry_step(entries[next as int], exclude, v.seen, v.visited, dir, v.home) {
                        EntryStep::Skip => {
                            lemma_advance_subtrees(v1);
                        },
                        EntryStep::Mark { inode } => {
                            lemma_advance_subtrees(WalkerView { seen: v1.seen.insert(inode), ..v1 });
                        },
                        _ => {},
                    }
                } else {
                    lemma_work_pop(v.frames);
                    lemma_advance_subtrees(popped(v));
                }
            },
        }
    }
}

/// A walk keeps every file in the subtree of the root it is registered
/// for: when the caller's listings name their entries plainly (no `/`, not
/// `.` or `..`, as a directory listing does), an answer keeps every
/// registered file under its root, and all pending work under the root it
/// belongs to.
pub proof fn law_files_stay_in_their_subtree(v: WalkerView, e: EventView)
    requires
        files_in_subtrees(v),
        waiting_in_subtree(v.waiting),
        answer_ok(v, e),
    ensures
        files_in_subtrees(on_event(v, e)),
        waiting_in_subtree(on_event(v, e).waiting),
{
    let w = on_event(v, e);
    match (v.waiting, e) {
        (WaitingView::Seed { dir }, EventView::SeedChecked(found)) => {
            if found && v.visited.contains(dir) {
                lemma_advance_subtrees(v);
            }
        },
        (WaitingView::Definition { root }, EventView::Definition(d)) => {
            if let Some(d) = d {
                lemma_refs_rooted(d.refs, v.home);
                assert forall|i: int| 0 <= i < w.frames.len() implies frame_in_subtree(#[trigger] w.frames[i]) by {
                    if i < v.frames.len() {
                        assert(w.frames[i] == v.frames[i]);
                    }
                }
                assert(components(root).take(components(root).len() as int) =~= components(root));
            }
        },
        (WaitingView::Listing { dir, owner, exclude }, EventView::Listed(l)) => {
            if let Some(entries) = l {
                let u = WalkerView {
                    frames: v.frames.push(FrameView::Entries { dir, owner, exclude, entries, next: 0 }),
                    ..v
                };
                assert forall|i: int| 0 <= i < u.frames.len() implies frame_in_subtree(#[trigger] u.frames[i]) by {
                    if i < v.frames.len() {
                        assert(u.frames[i] == v.frames[i]);
                    }
                }
                lemma_advance_subtrees(u);
            } else {
                lemma_advance_subtrees(v);
            }
        },
        (WaitingView::File { path, size, modified_bits, owner }, EventView::FileRead(c)) => {
            if let Some(bytes) = c {
                let u = WalkerView {
                    files: v.files.push(
                        WalkedFileView { path, hash: content_hash(bytes), size, modified_bits, root: owner },
                    ),
                    ..v
                };
                assert forall|i: int| 0 <= i < u.files.len() implies path_starts_with(
                    #[trigger] u.files[i].path,
                    u.files[i].root,
                ) by {
                    if i < v.files.len() {
                        assert(u.files[i] == v.files[i]);
                    }
                }
                lemma_advance_subtrees(u);
            }
        },
        (WaitingView::Ref { from, to }, EventView::RefChecked { exists, has_definition }) => {
            if exists && has_definition {
                if v.visited.contains(to) {
                    lemma_advance_subtrees(v);
                }
            } else {
                lemma_advance_subtrees(
                    WalkerView { warnings: v.warnings.push(WarningView::DanglingRef { from, to }), ..v },
                );
            }
        },
        _ => {},
    }
}

/// A walk starts in its subtree when its seed is rooted.
pub proof fn law_walk_starts_in_its_subtree(dir: Seq<char>, home: Option<Seq<char>>)
    requires
        rooted(dir),
    ensures
        files_in_subtrees(start_view(dir, home)),
        waiting_in_subtree(start_view(dir, home).waiting),
        walk_avoids_excluded(start_view(dir, home)),
{
    let v = start_view(dir, home);
    assert(exclude_roots(v) =~= root_paths(v));
}

// ---------------------------------------------------------------------------
// The walk keeps out of `.git` and of what a root excludes.

/// The components of `p` below `owner`.
pub open spec fn below(p: Seq<char>, owner: Seq<char>) -> Seq<Comp> {
    components(p).skip(components(owner).len() as int)
}

/// A directory the walk may enter under a root that excludes `exclude`:
/// a plain name that is not `.git` and that no pattern matches.
pub open spec fn enterable(c: Comp, exclude: Seq<Seq<char>>) -> bool {
    match c {
        Comp::Normal(n) => n != ".git"@ && !matches_any(exclude, n),
        _ => false,
    }
}

/// Every component of `cs` is enterable.
pub open spec fn all_enterable(cs: Seq<Comp>, exclude: Seq<Seq<char>>) -> bool {
    forall|i: int| 0 <= i < cs.len() ==> enterable(#[trigger] cs[i], exclude)
}

/// The root `owner` was registered with the exclude patterns `exclude`.
pub open spec fn walked_with(v: WalkerView, owner: Seq<char>, exclude: Seq<Seq<char>>) -> bool {
    exists|i: int| 0 <= i < v.excludes.len() && #[trigger] v.excludes[i] == (owner, exclude)
}

/// `path` is a file the walk may register for root `owner` that excludes
/// `exclude`: it lies below the root, through directories it may enter,
/// and its name is matched by no exclude pattern.
pub open spec fn admitted(path: Seq<char>, owner: Seq<char>, exclude: Seq<Seq<char>>) -> bool {
    let b = below(path, owner);
    &&& b.len() > 0
    &&& all_enterable(b.drop_last(), exclude)
    &&& (b.last() matches Comp::Normal(n) && !matches_any(exclude, n))
}

/// File `f` is admitted under the exclude patterns its root was registered
/// with.
pub open spec fn file_walked(v: WalkerView, f: WalkedFileView) -> bool {
    exists|j: int|
        0 <= j < v.excludes.len() && (#[trigger] v.excludes[j]).0 == f.root && admitted(
            f.path,
            f.root,
            v.excludes[j].1,
        )
}

/// The root paths an exclude list is recorded for.
pub open spec fn exclude_roots(v: WalkerView) -> Seq<Seq<char>> {
    v.excludes.map_values(|p: (Seq<char>, Seq<Seq<char>>)| p.0)
}

/// The files and the pending directories of `walk_avoids_excluded`.
pub open spec fn stack_avoids_excluded(v: WalkerView) -> bool {
    &&& exclude_roots(v) == root_paths(v)
    &&& forall|i: int| 0 <= i < v.files.len() ==> file_walked(v, #[trigger] v.files[i])
    &&& forall|i: int|
        0 <= i < v.frames.len() ==> (#[trigger] v.frames[i] matches FrameView::Entries {
            dir,
            owner,
            exclude,
            ..
        } ==> all_enterable(below(dir, owner), exclude) && walked_with(v, owner, exclude))
}

/// What the walk keeps out of: each registered root has one exclude list
/// recorded, that of its definition; every registered file lies below its
/// root through directories that are neither `.git` nor matched by the
/// root's exclude patterns, and no pattern matches its name; every directory
/// whose entries are pending, or whose listing is awaited, lies below its
/// owner through such directories and is walked with the owner's patterns;
/// a file whose content is awaited comes from the directory on top of the
/// stack and is admitted under its patterns.
pub open spec fn walk_avoids_excluded(v: WalkerView) -> bool {
    &&& stack_avoids_excluded(v)
    &&& match v.waiting {
        WaitingView::Listing { dir, owner, exclude } => all_enterable(below(dir, owner), exclude)
            && walked_with(v, owner, exclude),
        WaitingView::File { path, owner, .. } => {
            &&& v.frames.len() > 0
            &&& v.frames.last() matches FrameView::Entries { owner: o, exclude, .. }
            &&& o == owner
            &&& admitted(path, owner, exclude)
        },
        _ => true,
    }
}

proof fn lemma_below_entry(dir: Seq<char>, owner: Seq<char>, name: Seq<char>)
    requires
        rooted(dir),
        plain_name(name),
        path_starts_with(dir, owner),
    ensures
        below(render(components(dir).push(Comp::Normal(name))), owner) == below(dir, owner).push(
            Comp::Normal(name),
        ),
{
    lemma_rooted_entry(dir, name);
    let k = components(owner).len() as int;
    assert(components(dir).push(Comp::Normal(name)).skip(k) =~= components(dir).skip(k).push(
        Comp::Normal(name),
    ));
}

/// Records that a step leaves alone keep what they say.
proof fn lemma_records_kept(v: WalkerView, w: WalkerView)
    requires
        stack_avoids_excluded(v),
        w.excludes == v.excludes,
        w.files == v.files,
        w.roots == v.roots,
        forall|i: int| 0 <= i < w.frames.len() ==> #[trigger] w.frames[i] == v.frames[i],
        w.frames.len() <= v.frames.len(),
    ensures
        stack_avoids_excluded(w),
{
    assert(exclude_roots(w) == exclude_roots(v));
    assert(root_paths(w) == root_paths(v));
    assert forall|i: int| 0 <= i < w.files.len() implies file_walked(w, #[trigger] w.files[i]) by {
        assert(file_walked(v, v.files[i]));
    }
    assert forall|i: int| 0 <= i < w.frames.len() implies (#[trigger] w.frames[i] matches FrameView::Entries {
        dir,
        owner,
        exclude,
        ..
    } ==> all_enterable(below(dir, owner), exclude) && walked_with(w, owner, exclude)) by {
        assert(w.frames[i] == v.frames[i]);
        if let FrameView::Entries { owner, exclude, .. } = v.frames[i] {
            assert(walked_with(v, owner, exclude));
        }
    }
}

#[verifier::spinoff_prover]
#[verifier::rlimit(40)]
proof fn lemma_advance_avoids(v: WalkerView)
    requires
        files_in_subtrees(v),
        stack_avoids_excluded(v),
    ensures
        walk_avoids_excluded(advance(v)),
    decreases work(v.frames),
{
    if v.frames.len() == 0 {
        lemma_records_kept(v, waiting_on(v, WaitingView::Finished));
    } else {
        assert(frame_in_subtree(v.frames[v.frames.len() - 1]));
        match v.frames.last() {
            FrameView::Refs { root, refs, next } => {
                if next >= refs.len() {
                    lemma_work_pop(v.frames);
                    lemma_records_kept(v, popped(v));
                    lemma_advance_avoids(popped(v));
                } else {
                    let w = advance(v);
                    let f2 = FrameView::Refs { root, refs, next: next + 1 };
                    assert(w.frames == v.frames.update(v.frames.len() - 1, f2));
                    assert(w.excludes == v.excludes);
                    assert forall|i: int| 0 <= i < w.frames.len() implies (#[trigger] w.frames[i] matches FrameView::Entries {
                        dir,
                        owner,
                        exclude,
                        ..
                    } ==> all_enterable(below(dir, owner), exclude) && walked_with(w, owner, exclude)) by {
                        if i == v.frames.len() - 1 {
                            assert(w.frames[i] == f2);
                        } else {
                            assert(w.frames[i] == v.frames[i]);
                            if let FrameView::Entries { owner, exclude, .. } = v.frames[i] {
                                assert(walked_with(v, owner, exclude));
                            }
                        }
                    }
                    assert(exclude_roots(w) == exclude_roots(v));
                    assert(root_paths(w) == root_paths(v));
                    assert forall|i: int| 0 <= i < w.files.len() implies file_walked(w, #[trigger] w.files[i]) by {
                        assert(file_walked(v, v.files[i]));
                    }
                }
            },
            FrameView::Entries { dir, owner, exclude, entries, next } => {
                if next < entries.len() {
                    let f = FrameView::Entries { dir, owner, exclude, entries, next: next + 1 };
                    let v1 = with_top(v, f);
                    lemma_work_top(v.frames, f);
                    assert(all_enterable(below(dir, owner), exclude) && walked_with(v, owner, exclude));
                    assert forall|i: int| 0 <= i < v1.frames.len() implies frame_in_subtree(#[trigger] v1.frames[i]) by {
                        if i < v.frames.len() - 1 {
                            assert(v1.frames[i] == v.frames[i]);
                        }
                    }
                    assert forall|i: int| 0 <= i < v1.frames.len() implies (#[trigger] v1.frames[i] matches FrameView::Entries {
                        dir,
                        owner,
                        exclude,
                        ..
                    } ==> all_enterable(below(dir, owner), exclude) && walked_with(v1, owner, exclude)) by {
                        if i < v.frames.len() - 1 {
                            assert(v1.frames[i] == v.frames[i]);
                        }
                    }
                    assert(exclude_roots(v1) == exclude_roots(v));
                    assert(root_paths(v1) == root_paths(v));
                    assert forall|i: int| 0 <= i < v1.files.len() implies file_walked(v1, #[trigger] v1.files[i]) by {
                        assert(file_walked(v, v.files[i]));
                    }
                    assert(stack_avoids_excluded(v1));
                    let e = entries[next as int];
                    assert(plain_name(e.name));
                    lemma_below_entry(dir, owner, e.name);
                    lemma_rooted_entry(dir, e.name);
                    assert(entry_path(dir, e.name, v.home) == Some(
                        render(components(dir).push(Comp::Normal(e.name))),
                    )) by {
                        lemma_entry_in_subtree(e, exclude, v.seen, v.visited, dir, owner, v.home);
                    }
                    let bd = below(dir, owner);
                    let be = bd.push(Comp::Normal(e.name));
                    match entry_step(e, exclude, v.seen, v.visited, dir, v.home) {
                        EntryStep::Skip => {
                            lemma_advance_avoids(v1);
                        },
                        EntryStep::Mark { inode } => {
                            lemma_records_kept(v1, WalkerView { seen: v1.seen.insert(inode), ..v1 });
                            lemma_advance_avoids(WalkerView { seen: v1.seen.insert(inode), ..v1 });
                        },
                        EntryStep::File { path, size, modified_bits } => {
                            assert(below(path, owner) == be);
                            assert(be.drop_last() =~= bd);
                            assert(v1.frames.last() == f);
                            let w = waiting_on(v1, WaitingView::File { path, size, modified_bits, owner });
                            lemma_records_kept(v1, w);
                            assert(admitted(path, owner, exclude));
                            assert(walk_avoids_excluded(w));
                        },
                        EntryStep::SubRoot { inode, root } => {
                            lemma_records_kept(
                                v1,
                                WalkerView {
                                    seen: v1.seen.insert(inode),
                                    visited: v1.visited.push(root),
                                    waiting: WaitingView::Definition { root },
                                    ..v1
                                },
                            );
                        },
                        EntryStep::Descend { inode, dir: sub } => {
                            let w = WalkerView {
                                seen: v1.seen.insert(inode),
                                waiting: WaitingView::Listing { dir: sub, owner, exclude },
                                ..v1
                            };
                            lemma_records_kept(v1, w);
                            assert(walked_with(w, owner, exclude)) by {
                                assert(walked_with(v, owner, exclude));
                            }
                            assert(below(sub, owner) == be);
                            assert forall|i: int| 0 <= i < be.len() implies enterable(#[trigger] be[i], exclude) by {
                                if i < bd.len() {
                                    assert(be[i] == bd[i]);
                                }
                            }
                        },
                    }
                } else {
                    lemma_work_pop(v.frames);
                    lemma_records_kept(v, popped(v));
                    lemma_advance_avoids(popped(v));
                }
            },
        }
    }
}

/// A walk keeps out of `.git` and of what a root excludes: when the
/// caller's listings name their entries plainly, an answer keeps every
/// registered file below its root through directories that are neither
/// `.git` nor matched by the exclude patterns of the root's definition, its
/// name matched by none of them; and the same of every directory still to
/// be walked and of every file whose content is awaited.
#[verifier::spinoff_prover]
#[verifier::rlimit(40)]
pub proof fn law_walk_avoids_excluded(v: WalkerView, e: EventView)
    requires
        files_in_subtrees(v),
        waiting_in_subtree(v.waiting),
        answer_ok(v, e),
        walk_avoids_excluded(v),
    ensures
        walk_avoids_excluded(on_event(v, e)),
{
    let next = on_event(v, e);
    if next.files == v.files && next.excludes == v.excludes && next.roots == v.roots && next.frames
        == v.frames {
        lemma_records_kept(v, next);
    }
    match (v.waiting, e) {
        (WaitingView::Seed { dir }, EventView::SeedChecked(found)) => {
            if found && v.visited.contains(dir) {
                lemma_advance_avoids(v);
            }
        },
        (WaitingView::Definition { root }, EventView::Definition(d)) => {
            if let Some(d) = d {
                let w = on_event(v, e);
                assert(below(root, root) =~= Seq::<Comp>::empty());
                assert(w.excludes[v.excludes.len() as int] == (root, d.exclude));
                assert(walked_with(w, root, d.exclude));
                assert(exclude_roots(w) =~= exclude_roots(v).push(root));
                assert(root_paths(w) =~= root_paths(v).push(root));
                assert forall|i: int| 0 <= i < w.files.len() implies file_walked(w, #[trigger] w.files[i]) by {
                    assert(w.files[i] == v.files[i]);
                    assert(file_walked(v, v.files[i]));
                    let j = choose|j: int|
                        0 <= j < v.excludes.len() && (#[trigger] v.excludes[j]).0 == v.files[i].root
                            && admitted(v.files[i].path, v.files[i].root, v.excludes[j].1);
                    assert(w.excludes[j] == v.excludes[j]);
                }
                assert forall|i: int| 0 <= i < w.frames.len() implies (#[trigger] w.frames[i] matches FrameView::Entries {
                    dir,
                    owner,
                    exclude,
                    ..
                } ==> all_enterable(below(dir, owner), exclude) && walked_with(w, owner, exclude)) by {
                    if i < v.frames.len() {
                        assert(w.frames[i] == v.frames[i]);
                        if let FrameView::Entries { owner, exclude, .. } = v.frames[i] {
                            assert(walked_with(v, owner, exclude));
                            let j = choose|j: int|
                                0 <= j < v.excludes.len() && #[trigger] v.excludes[j] == (owner, exclude);
                            assert(w.excludes[j] == v.excludes[j]);
                        }
                    }
                }
            }
        },
        (WaitingView::Listing { dir, owner, exclude }, EventView::Listed(l)) => {
            if let Some(entries) = l {
                let u = WalkerView {
                    frames: v.frames.push(FrameView::Entries { dir, owner, exclude, entries, next: 0 }),
                    ..v
                };
                assert forall|i: int| 0 <= i < u.frames.len() implies frame_in_subtree(#[trigger] u.frames[i]) by {
                    if i < v.frames.len() {
                        assert(u.frames[i] == v.frames[i]);
                    }
                }
                assert forall|i: int| 0 <= i < u.frames.len() implies (#[trigger] u.frames[i] matches FrameView::Entries {
                    dir,
                    owner,
                    exclude,
                    ..
                } ==> all_enterable(below(dir, owner), exclude) && walked_with(u, owner, exclude)) by {
                    if i < v.frames.len() {
                        assert(u.frames[i] == v.frames[i]);
                        if let FrameView::Entries { owner, exclude, .. } = v.frames[i] {
                            assert(walked_with(v, owner, exclude));
                        }
                    }
                }
                assert(exclude_roots(u) == exclude_roots(v));
                assert(root_paths(u) == root_paths(v));
                assert forall|i: int| 0 <= i < u.files.len() implies file_walked(u, #[trigger] u.files[i]) by {
                    assert(file_walked(v, v.files[i]));
                }
                lemma_advance_avoids(u);
            } else {
                lemma_advance_avoids(v);
            }
        },
        (WaitingView::File { path, size, modified_bits, owner }, EventView::FileRead(c)) => {
            if let Some(bytes) = c {
                let nf = WalkedFileView { path, hash: content_hash(bytes), size, modified_bits, root: owner };
                let u = WalkerView { files: v.files.push(nf), ..v };
                assert forall|i: int| 0 <= i < u.files.len() implies path_starts_with(
                    #[trigger] u.files[i].path,
                    u.files[i].root,
                ) by {
                    if i < v.files.len() {
                        assert(u.files[i] == v.files[i]);
                    }
                }
                if let FrameView::Entries { owner: o, exclude, .. } = v.frames.last() {
                    assert(v.frames[v.frames.len() - 1] == v.frames.last());
                    assert(walked_with(v, owner, exclude));
                    let j = choose|j: int|
                        0 <= j < v.excludes.len() && #[trigger] v.excludes[j] == (owner, exclude);
                    assert(u.excludes[j].0 == nf.root && admitted(nf.path, nf.root, u.excludes[j].1));
                    assert(file_walked(u, nf));
                }
                assert forall|i: int| 0 <= i < u.files.len() implies file_walked(u, #[trigger] u.files[i]) by {
                    if i < v.files.len() {
                        assert(u.files[i] == v.files[i]);
                    }
                }
                lemma_advance_avoids(u);
            }
        },
        (WaitingView::Ref { from, to }, EventView::RefChecked { exists, has_definition }) => {
            if exists && has_definition {
                if v.visited.contains(to) {
                    lemma_advance_avoids(v);
                }
            } else {
                let u = WalkerView {
                    warnings: v.warnings.push(WarningView::DanglingRef { from, to }),
                    ..v
                };
                lemma_records_kept(v, u);
                lemma_advance_avoids(u);
            }
        },
        _ => {},
    }
}

// ---------------------------------------------------------------------------
// The walk follows the directory tree it is shown.

/// Listing `es` holds an entry named `c` that is a directory with neither a
/// stop file nor a definition file.
pub open spec fn plain_dir_in(es: Seq<EntryView>, c: Comp) -> bool {
    exists|x: int|
        0 <= x < es.len() && c == Comp::Normal((#[trigger] es[x]).name) && (es[x].kind matches EntryKind::Dir {
            has_stop,
            has_definition,
            ..
        } && !has_stop && !has_definition)
}

/// Going down from the directory with components `base` through the names
/// `b`, each directory is listed in its parent (`fs` gives listings by
/// components) as a directory with neither a stop file nor a definition
/// file.
pub open spec fn through_plain_dirs(
    fs: spec_fn(Seq<Comp>) -> Seq<EntryView>,
    base: Seq<Comp>,
    b: Seq<Comp>,
) -> bool {
    forall|k: int| 0 <= k < b.len() ==> plain_dir_in(fs(base + b.take(k)), #[trigger] b[k])
}

/// The walk follows the tree `fs`: every registered file lies below its
/// root through directories its parents list as plain directories, and so
/// does every pending directory and every file whose content is awaited;
/// the entries pending for a directory are its listing.
pub open spec fn walk_follows_tree(v: WalkerView, fs: spec_fn(Seq<Comp>) -> Seq<EntryView>) -> bool {
    &&& forall|i: int|
        0 <= i < v.files.len() ==> through_plain_dirs(
            fs,
            components((#[trigger] v.files[i]).root),
            below(v.files[i].path, v.files[i].root).drop_last(),
        )
    &&& forall|i: int|
        0 <= i < v.frames.len() ==> (#[trigger] v.frames[i] matches FrameView::Entries {
            dir,
            owner,
            entries,
            ..
        } ==> entries == fs(components(dir)) && through_plain_dirs(fs, components(owner), below(dir, owner)))
    &&& match v.waiting {
        WaitingView::Listing { dir, owner, .. } => through_plain_dirs(fs, components(owner), below(dir, owner)),
        WaitingView::File { path, owner, .. } => through_plain_dirs(
            fs,
            components(owner),
            below(path, owner).drop_last(),
        ),
        _ => true,
    }
}

/// The caller's answer to a listing is the listing `fs` gives.
pub open spec fn answer_from(v: WalkerView, e: EventView, fs: spec_fn(Seq<Comp>) -> Seq<EntryView>) -> bool {
    match (v.waiting, e) {
        (WaitingView::Listing { dir, .. }, EventView::Listed(Some(es))) => es == fs(components(dir)),
        _ => true,
    }
}

proof fn lemma_components_below(dir: Seq<char>, owner: Seq<char>)
    requires
        path_starts_with(dir, owner),
    ensures
        components(owner) + below(dir, owner) == components(dir),
{
    let c = components(dir);
    let n = components(owner).len() as int;
    assert(c.take(n) + c.skip(n) =~= c);
}

proof fn lemma_through_push(
    fs: spec_fn(Seq<Comp>) -> Seq<EntryView>,
    base: Seq<Comp>,
    b: Seq<Comp>,
    c: Comp,
)
    requires
        through_plain_dirs(fs, base, b),
        plain_dir_in(fs(base + b), c),
    ensures
        through_plain_dirs(fs, base, b.push(c)),
{
    let b2 = b.push(c);
    assert forall|k: int| 0 <= k < b2.len() implies plain_dir_in(fs(base + b2.take(k)), #[trigger] b2[k]) by {
        if k < b.len() {
            assert(b2.take(k) =~= b.take(k));
            assert(b2[k] == b[k]);
        } else {
            assert(b2.take(k) =~= b);
        }
    }
}

#[verifier::spinoff_prover]
#[verifier::rlimit(40)]
proof fn lemma_advance_follows(v: WalkerView, fs: spec_fn(Seq<Comp>) -> Seq<EntryView>)
    requires
        files_in_subtrees(v),
        forall|i: int|
            0 <= i < v.files.len() ==> through_plain_dirs(
                fs,
                components((#[trigger] v.files[i]).root),
                below(v.files[i].path, v.files[i].root).drop_last(),
            ),
        forall|i: int|
            0 <= i < v.frames.len() ==> (#[trigger] v.frames[i] matches FrameView::Entries {
                dir,
                owner,
                entries,
                ..
            } ==> entries == fs(components(dir)) && through_plain_dirs(fs, components(owner), below(dir, owner))),
    ensures
        walk_follows_tree(advance(v), fs),
    decreases work(v.frames),
{
    if v.frames.len() > 0 {
        assert(frame_in_subtree(v.frames[v.frames.len() - 1]));
        match v.frames.last() {
            FrameView::Refs { root, refs, next } => {
                if next >= refs.len() {
                    lemma_work_pop(v.frames);
                    lemma_advance_follows(popped(v), fs);
                } else {
                    let w = advance(v);
                    let f2 = FrameView::Refs { root, refs, next: next + 1 };
                    assert(w.frames == v.frames.update(v.frames.len() - 1, f2));
                    assert forall|i: int| 0 <= i < w.frames.len() implies (#[trigger] w.frames[i] matches FrameView::Entries {
                        dir,
                        owner,
                        entries,
                        ..
                    } ==> entries == fs(components(dir)) && through_plain_dirs(fs, components(owner), below(dir, owner))) by {
                        if i == v.frames.len() - 1 {
                            assert(w.frames[i] == f2);
                        } else {
                            assert(w.frames[i] == v.frames[i]);
                        }
                    }
                }
            },
            FrameView::Entries { dir, owner, exclude, entries, next } => {
                if next < entries.len() {
                    let f = FrameView::Entries { dir, owner, exclude, entries, next: next + 1 };
                    let v1 = with_top(v, f);
                    lemma_work_top(v.frames, f);
                    assert(entries == fs(components(dir)) && through_plain_dirs(fs, components(owner), below(dir, owner)));
                    assert forall|i: int| 0 <= i < v1.frames.len() implies frame_in_subtree(#[trigger] v1.frames[i]) by {
                        if i < v.frames.len() - 1 {
                            assert(v1.frames[i] == v.frames[i]);
                        }
                    }
                    assert forall|i: int| 0 <= i < v1.frames.len() implies (#[trigger] v1.frames[i] matches FrameView::Entries {
                        dir,
                        owner,
                        entries,
                        ..
                    } ==> entries == fs(components(dir)) && through_plain_dirs(fs, components(owner), below(dir, owner))) by {
                        if i < v.frames.len() - 1 {
                            assert(v1.frames[i] == v.frames[i]);
                        }
                    }
                    let e = entries[next as int];
                    assert(plain_name(e.name));
                    lemma_below_entry(dir, owner, e.name);
                    lemma_rooted_entry(dir, e.name);
                    assert(entry_path(dir, e.name, v.home) == Some(
                        render(components(dir).push(Comp::Normal(e.name))),
                    )) by {
                        lemma_entry_in_subtree(e, exclude, v.seen, v.visited, dir, owner, v.home);
                    }
                    let bd = below(dir, owner);
                    let be = bd.push(Comp::Normal(e.name));
                    match entry_step(e, exclude, v.seen, v.visited, dir, v.home) {
                        EntryStep::Skip => {
                            lemma_advance_follows(v1, fs);
                        },
                        EntryStep::Mark { inode } => {
                            lemma_advance_follows(WalkerView { seen: v1.seen.insert(inode), ..v1 }, fs);
                        },
                        EntryStep::File { path, .. } => {
                            assert(below(path, owner) == be);
                            assert(be.drop_last() =~= bd);
                        },
                        EntryStep::SubRoot { .. } => {},
                        EntryStep::Descend { dir: sub, .. } => {
                            assert(below(sub, owner) == be);
                            lemma_components_below(dir, owner);
                            assert(Comp::Normal(e.name) == Comp::Normal(entries[next as int].name));
                            assert(plain_dir_in(fs(components(owner) + bd), Comp::Normal(e.name)));
                            lemma_through_push(fs, components(owner), bd, Comp::Normal(e.name));
                        },
                    }
                } else {
                    lemma_work_pop(v.frames);
                    lemma_advance_follows(popped(v), fs);
                }
            },
        }
    }
}

/// A walk follows the tree it is shown: when the caller's answer to a
/// listing is the listing `fs` gives for that directory, and listings name
/// their entries plainly, an answer keeps every registered file, every
/// pending directory and every awaited file below its root through
/// directories that their parents list as directories with neither a
/// `.quine-stop` file nor a `quine.yaml`.
#[verifier::spinoff_prover]
#[verifier::rlimit(40)]
pub proof fn law_walk_follows_tree(v: WalkerView, e: EventView, fs: spec_fn(Seq<Comp>) -> Seq<EntryView>)
    requires
        files_in_subtrees(v),
        waiting_in_subtree(v.waiting),
        answer_ok(v, e),
        answer_from(v, e, fs),
        walk_follows_tree(v, fs),
    ensures
        walk_follows_tree(on_event(v, e), fs),
{
    match (v.waiting, e) {
        (WaitingView::Seed { dir }, EventView::SeedChecked(found)) => {
            if found && v.visited.contains(dir) {
                lemma_advance_follows(v, fs);
            }
        },
        (WaitingView::Definition { root }, EventView::Definition(d)) => {
            if let Some(d) = d {
                let w = on_event(v, e);
                assert(below(root, root) =~= Seq::<Comp>::empty());
                assert forall|i: int| 0 <= i < w.frames.len() implies (#[trigger] w.frames[i] matches FrameView::Entries {
                    dir,
                    owner,
                    entries,
                    ..
                } ==> entries == fs(components(dir)) && through_plain_dirs(fs, components(owner), below(dir, owner))) by {
                    if i < v.frames.len() {
                        assert(w.frames[i] == v.frames[i]);
                    }
                }
            }
        },
        (WaitingView::Listing { dir, owner, exclude }, EventView::Listed(l)) => {
            if let Some(entries) = l {
                let u = WalkerView {
                    frames: v.frames.push(FrameView::Entries { dir, owner, exclude, entries, next: 0 }),
                    ..v
                };
                assert forall|i: int| 0 <= i < u.frames.len() implies frame_in_subtree(#[trigger] u.frames[i]) by {
                    if i < v.frames.len() {
                        assert(u.frames[i] == v.frames[i]);
                    }
                }
                assert forall|i: int| 0 <= i < u.frames.len() implies (#[trigger] u.frames[i] matches FrameView::Entries {
                    dir,
                    owner,
                    entries,
                    ..
                } ==> entries == fs(components(dir)) && through_plain_dirs(fs, components(owner), below(dir, owner))) by {
                    if i < v.frames.len() {
                        assert(u.frames[i] == v.frames[i]);
                    }
                }
                lemma_advance_follows(u, fs);
            } else {
                lemma_advance_follows(v, fs);
            }
        },
        (WaitingView::File { path, size, modified_bits, owner }, EventView::FileRead(c)) => {
            if let Some(bytes) = c {
                let u = WalkerView {
                    files: v.files.push(
                        WalkedFileView { path, hash: content_hash(bytes), size, modified_bits, root: owner },
                    ),
                    ..v
                };
                assert forall|i: int| 0 <= i < u.files.len() implies path_starts_with(
                    #[trigger] u.files[i].path,
                    u.files[i].root,
                ) by {
                    if i < v.files.len() {
                        assert(u.files[i] == v.files[i]);
                    }
                }
                assert forall|i: int| 0 <= i < u.files.len() implies through_plain_dirs(
                    fs,
                    components((#[trigger] u.files[i]).root),
                    below(u.files[i].path, u.files[i].root).drop_last(),
                ) by {
                    if i < v.files.len() {
                        assert(u.files[i] == v.files[i]);
                    }
                }
                lemma_advance_follows(u, fs);
            }
        },
        (WaitingView::Ref { from, to }, EventView::RefChecked { exists, has_definition }) => {
            if exists && has_definition {
                if v.visited.contains(to) {
                    lemma_advance_follows(v, fs);
                }
            } else {
                lemma_advance_follows(
                    WalkerView { warnings: v.warnings.push(WarningView::DanglingRef { from, to }), ..v },
                    fs,
                );
            }
        },
        _ => {},
    }
}

// ---------------------------------------------------------------------------
// A whole walk.

/// The state a walk reaches from `v` once the caller has given the answers
/// `es`, one per step.
pub open spec fn run_walk(v: WalkerView, es: Seq<EventView>) -> WalkerView
    decreases es.len(),
{
    if es.len() == 0 {
        v
    } else {
        run_walk(on_event(v, es[0]), es.drop_first())
    }
}

/// Each answer of `es`, given in turn from `v`, names its entries plainly
/// and, when it answers a listing, is the listing `fs` gives.
pub open spec fn answers_shown(v: WalkerView, es: Seq<EventView>, fs: spec_fn(Seq<Comp>) -> Seq<EntryView>) -> bool
    decreases es.len(),
{
    es.len() == 0 || (answer_ok(v, es[0]) && answer_from(v, es[0], fs) && answers_shown(
        on_event(v, es[0]),
        es.drop_first(),
        fs,
    ))
}

/// No listing of `fs` names two entries alike, as a directory's never does.
pub open spec fn listings_unique(fs: spec_fn(Seq<Comp>) -> Seq<EntryView>) -> bool {
    forall|d: Seq<Comp>, x: int, y: int|
        0 <= x < y < fs(d).len() ==> (#[trigger] fs(d)[x]).name != (#[trigger] fs(d)[y]).name
}

/// Whatever listing `es` names `c` is a directory holding neither a stop
/// file nor a definition file.
pub open spec fn named_plain_dir(es: Seq<EntryView>, c: Comp) -> bool {
    forall|x: int|
        0 <= x < es.len() && c == Comp::Normal((#[trigger] es[x]).name) ==> (es[x].kind matches EntryKind::Dir {
            has_stop,
            has_definition,
            ..
        } && !has_stop && !has_definition)
}

/// File `f` of a walk over the tree `fs`: it lies below its root, and every
/// directory between the root and the file is, in its parent's listing, a
/// directory with neither a `.quine-stop` file nor a `quine.yaml`; so no
/// file comes from below a stop directory, and a file below a sub-root is
/// registered for that sub-root, never for a root above it.
pub open spec fn file_in_tree(f: WalkedFileView, fs: spec_fn(Seq<Comp>) -> Seq<EntryView>) -> bool {
    let b = below(f.path, f.root).drop_last();
    &&& path_starts_with(f.path, f.root)
    &&& forall|k: int| 0 <= k < b.len() ==> named_plain_dir(fs(components(f.root) + b.take(k)), #[trigger] b[k])
}

proof fn lemma_run(v: WalkerView, es: Seq<EventView>, fs: spec_fn(Seq<Comp>) -> Seq<EntryView>)
    requires
        walker_inv(v),
        files_in_subtrees(v),
        waiting_in_subtree(v.waiting),
        walk_avoids_excluded(v),
        walk_follows_tree(v, fs),
        answers_shown(v, es, fs),
    ensures
        walker_inv(run_walk(v, es)),
        files_in_subtrees(run_walk(v, es)),
        walk_avoids_excluded(run_walk(v, es)),
        walk_follows_tree(run_walk(v, es), fs),
    decreases es.len(),
{
    if es.len() > 0 {
        let e = es[0];
        law_step_keeps_invariant(v, e);
        law_files_stay_in_their_subtree(v, e);
        law_walk_avoids_excluded(v, e);
        law_walk_follows_tree(v, e, fs);
        lemma_run(on_event(v, e), es.drop_first(), fs);
    }
}

/// What a whole walk returns, over a directory tree `fs`: start a walk at a
/// rooted seed and answer every question the walk asks, listings as `fs`
/// gives them (plainly named, no name twice) and anything else as it
/// comes. Then every file the walk has registered belongs to a registered
/// root and lies below it; between the root and the file there is no `.git`
/// directory, no directory an exclude pattern of that root matches, no
/// directory holding a `.quine-stop` file, and no directory holding a
/// `quine.yaml` (whose files belong to that sub-root instead); and no exclude
/// pattern of the root matches the file's name.
pub proof fn law_whole_walk(
    dir: Seq<char>,
    home: Option<Seq<char>>,
    es: Seq<EventView>,
    fs: spec_fn(Seq<Comp>) -> Seq<EntryView>,
)
    requires
        rooted(dir),
        answers_shown(start_view(dir, home), es, fs),
        listings_unique(fs),
    ensures
        walker_inv(run_walk(start_view(dir, home), es)),
        walk_avoids_excluded(run_walk(start_view(dir, home), es)),
        forall|i: int|
            0 <= i < run_walk(start_view(dir, home), es).files.len() ==> file_in_tree(
                #[trigger] run_walk(start_view(dir, home), es).files[i],
                fs,
            ),
{
    let v = start_view(dir, home);
    law_walk_starts_in_its_subtree(dir, home);
    assert(walker_inv(v)) by {
        assert(root_paths(v) =~= Seq::<Seq<char>>::empty());
    }
    lemma_run(v, es, fs);
    let w = run_walk(v, es);
    assert forall|i: int| 0 <= i < w.files.len() implies file_in_tree(#[trigger] w.files[i], fs) by {
        let f = w.files[i];
        let b = below(f.path, f.root).drop_last();
        assert(through_plain_dirs(fs, components(f.root), b));
        assert forall|k: int| 0 <= k < b.len() implies named_plain_dir(
            fs(components(f.root) + b.take(k)),
            #[trigger] b[k],
        ) by {
            let l = fs(components(f.root) + b.take(k));
            assert(plain_dir_in(l, b[k]));
            let x0 = choose|x: int|
                0 <= x < l.len() && b[k] == Comp::Normal((#[trigger] l[x]).name) && (l[x].kind matches EntryKind::Dir {
                    has_stop,
                    has_definition,
                    ..
                } && !has_stop && !has_definition);
            assert forall|x: int| 0 <= x < l.len() && b[k] == Comp::Normal((#[trigger] l[x]).name) implies (l[x].kind matches EntryKind::Dir {
                has_stop,
                has_definition,
                ..
            } && !has_stop && !has_definition) by {
                if x != x0 {
                    assert(l[x].name == l[x0].name);
                    if x < x0 {
                        assert(l[x].name != l[x0].name);
                    } else {
                        assert(l[x0].name != l[x].name);
                    }
                }
            }
        }
    }
}

// ---------------------------------------------------------------------------
// A whole walk registers every file it is shown.

/// The node path of entry `e` of directory `dir` when it is a regular file
/// that no exclude pattern matches and whose path makes a node.
pub open spec fn admitted_file(
    e: EntryView,
    exclude: Seq<Seq<char>>,
    dir: Seq<char>,
    home: Option<Seq<char>>,
) -> Option<Seq<char>> {
    match e.kind {
        EntryKind::File { .. } => if matches_any(exclude, e.name) {
            None
        } else {
            entry_path(dir, e.name, home)
        },
        _ => None,
    }
}

/// Answer `e` to `v` lists a directory with an admitted file at path `p`.
pub open spec fn lists_file(v: WalkerView, e: EventView, p: Seq<char>) -> bool {
    match (v.waiting, e) {
        (WaitingView::Listing { dir, exclude, .. }, EventView::Listed(Some(entries))) => exists|j: int|
            0 <= j < entries.len() && admitted_file(#[trigger] entries[j], exclude, dir, v.home) == Some(p),
        _ => false,
    }
}

/// Some answer of `es`, given in turn from `v`, lists a directory with an
/// admitted file at path `p`.
pub open spec fn run_lists_file(v: WalkerView, es: Seq<EventView>, p: Seq<char>) -> bool
    decreases es.len(),
{
    es.len() > 0 && (lists_file(v, es[0], p) || run_lists_file(on_event(v, es[0]), es.drop_first(), p))
}

/// A file at path `p` is registered.
pub open spec fn has_file(v: WalkerView, p: Seq<char>) -> bool {
    exists|i: int| 0 <= i < v.files.len() && (#[trigger] v.files[i]).path == p
}

/// The file at `p` is registered or still to be decided on the stack.
spec fn stack_accounts(v: WalkerView, p: Seq<char>) -> bool {
    ||| has_file(v, p)
    ||| exists|f: int, j: int| #[trigger] pending_at(v, f, j, p)
}

/// Entry `j` of frame `f`, not yet decided, is an admitted file at `p`.
spec fn pending_at(v: WalkerView, f: int, j: int, p: Seq<char>) -> bool {
    &&& 0 <= f < v.frames.len()
    &&& v.frames[f] matches FrameView::Entries { dir, exclude, entries, next, .. } && next <= j
        < entries.len() && admitted_file(entries[j], exclude, dir, v.home) == Some(p)
}

/// The file at `p` is registered, still to be decided, or being read.
spec fn accounts(v: WalkerView, p: Seq<char>) -> bool {
    stack_accounts(v, p) || (v.waiting matches WaitingView::File { path, .. } && path == p)
}

/// A walk that is over without failure has no work left.
spec fn over_ok(v: WalkerView) -> bool {
    v.waiting is Finished && !v.failed ==> v.frames.len() == 0
}

proof fn lemma_has_file_same(v: WalkerView, w: WalkerView, p: Seq<char>)
    requires
        has_file(v, p),
        extends(v.files, w.files),
    ensures
        has_file(w, p),
{
    let i = choose|i: int| 0 <= i < v.files.len() && (#[trigger] v.files[i]).path == p;
    assert(w.files.take(v.files.len() as int)[i] == w.files[i]);
}

#[verifier::spinoff_prover]
#[verifier::rlimit(40)]
proof fn lemma_advance_accounts(v: WalkerView, p: Seq<char>)
    requires
        stack_accounts(v, p),
    ensures
        accounts(advance(v), p),
        !advance(v).failed || v.failed,
        over_ok(advance(v)),
    decreases work(v.frames),
{
    if v.frames.len() == 0 {
        if has_file(v, p) {
            assert(advance(v).files.take(v.files.len() as int) =~= v.files);
            lemma_has_file_same(v, advance(v), p);
        } else {
            let (f, j) = choose|f: int, j: int| pending_at(v, f, j, p);
        }
    } else {
        match v.frames.last() {
            FrameView::Refs { root, refs, next } => {
                if next >= refs.len() {
                    lemma_work_pop(v.frames);
                    let u = popped(v);
                    if has_file(v, p) {
                        assert(u.files.take(v.files.len() as int) =~= v.files);
                        lemma_has_file_same(v, u, p);
                    }
                    if !has_file(v, p) {
                        let (f, j) = choose|f: int, j: int| pending_at(v, f, j, p);
                        assert(f != v.frames.len() - 1);
                        assert(u.frames[f] == v.frames[f]);
                        assert(pending_at(u, f, j, p));
                    }
                    lemma_advance_accounts(u, p);
                } else {
                    let w = advance(v);
                    let f2 = FrameView::Refs { root, refs, next: next + 1 };
                    assert(w.frames == v.frames.update(v.frames.len() - 1, f2));
                    if has_file(v, p) {
                        assert(w.files.take(v.files.len() as int) =~= v.files);
                        lemma_has_file_same(v, w, p);
                    }
                    if !has_file(v, p) {
                        let (f, j) = choose|f: int, j: int| pending_at(v, f, j, p);
                        assert(f != v.frames.len() - 1);
                        assert(w.frames[f] == v.frames[f]);
                        assert(pending_at(w, f, j, p));
                    }
                }
            },
            FrameView::Entries { dir, owner, exclude, entries, next } => {
                let top = v.frames.len() - 1;
                if next < entries.len() {
                    let fr = FrameView::Entries { dir, owner, exclude, entries, next: next + 1 };
                    let v1 = with_top(v, fr);
                    lemma_work_top(v.frames, fr);
                    let e = entries[next as int];
                    let decided_here = !has_file(v, p) && admitted_file(e, exclude, dir, v.home) == Some(p);
                    if !has_file(v, p) && !decided_here {
                        let (f, j) = choose|f: int, j: int| pending_at(v, f, j, p);
                        if f == top {
                            assert(j != next);
                            assert(v1.frames[f] == fr);
                        } else {
                            assert(v1.frames[f] == v.frames[f]);
                        }
                        assert(pending_at(v1, f, j, p));
                        assert(stack_accounts(v1, p));
                    }
                    if has_file(v, p) {
                        assert(v1.files.take(v.files.len() as int) =~= v.files);
                        lemma_has_file_same(v, v1, p);
                    }
                    match entry_step(e, exclude, v.seen, v.visited, dir, v.home) {
                        EntryStep::Skip => {
                            if !decided_here {
                                lemma_advance_accounts(v1, p);
                            }
                        },
                        EntryStep::Mark { inode } => {
                            if !decided_here {
                                let v2 = WalkerView { seen: v1.seen.insert(inode), ..v1 };
                                if has_file(v1, p) {
                                    assert(v2.files.take(v1.files.len() as int) =~= v1.files);
                                    lemma_has_file_same(v1, v2, p);
                                } else {
                                    let (f, j) = choose|f: int, j: int| pending_at(v1, f, j, p);
                                    assert(v2.frames[f] == v1.frames[f]);
                                    assert(pending_at(v2, f, j, p));
                                }
                                lemma_advance_accounts(v2, p);
                            }
                        },
                        _ => {
                            let w = advance(v);
                            if decided_here {
                                law_walk_takes_admitted_entries(e, exclude, v.seen, v.visited, dir, v.home);
                            } else if has_file(v1, p) {
                                assert(w.files.take(v1.files.len() as int) =~= v1.files);
                                lemma_has_file_same(v1, w, p);
                            } else {
                                let (f, j) = choose|f: int, j: int| pending_at(v1, f, j, p);
                                assert(w.frames == v1.frames);
                                assert(pending_at(w, f, j, p));
                            }
                        },
                    }
                } else {
                    lemma_work_pop(v.frames);
                    let u = popped(v);
                    if has_file(v, p) {
                        assert(u.files.take(v.files.len() as int) =~= v.files);
                        lemma_has_file_same(v, u, p);
                    }
                    if !has_file(v, p) {
                        let (f, j) = choose|f: int, j: int| pending_at(v, f, j, p);
                        assert(f != top);
                        assert(u.frames[f] == v.frames[f]);
                        assert(pending_at(u, f, j, p));
                    }
                    lemma_advance_accounts(u, p);
                }
            },
        }
    }
}

proof fn lemma_advance_basic(v: WalkerView)
    ensures
        advance(v).failed == v.failed,
        advance(v).home == v.home,
        advance(v).files == v.files,
        over_ok(advance(v)),
    decreases work(v.frames),
{
    if v.frames.len() > 0 {
        match v.frames.last() {
            FrameView::Refs { refs, next, .. } => {
                if next >= refs.len() {
                    lemma_work_pop(v.frames);
                    lemma_advance_basic(popped(v));
                }
            },
            FrameView::Entries { dir, owner, exclude, entries, next } => {
                if next < entries.len() {
                    let fr = FrameView::Entries { dir, owner, exclude, entries, next: next + 1 };
                    let v1 = with_top(v, fr);
                    lemma_work_top(v.frames, fr);
                    match entry_step(entries[next as int], exclude, v.seen, v.visited, dir, v.home) {
                        EntryStep::Skip => {
                            lemma_advance_basic(v1);
                        },
                        EntryStep::Mark { inode } => {
                            lemma_advance_basic(WalkerView { seen: v1.seen.insert(inode), ..v1 });
                        },
                        _ => {},
                    }
                } else {
                    lemma_work_pop(v.frames);
                    lemma_advance_basic(popped(v));
                }
            },
        }
    }
}

/// What is registered or on the stack stays so when files are only added
/// and frames only pushed.
proof fn lemma_stack_kept(v: WalkerView, w: WalkerView, p: Seq<char>)
    requires
        stack_accounts(v, p),
        extends(v.files, w.files),
        extends(v.frames, w.frames),
        w.home == v.home,
    ensures
        stack_accounts(w, p),
{
    if has_file(v, p) {
        lemma_has_file_same(v, w, p);
    } else {
        let (f, j) = choose|f: int, j: int| pending_at(v, f, j, p);
        assert(w.frames.take(v.frames.len() as int)[f] == w.frames[f]);
        assert(pending_at(w, f, j, p));
    }
}

#[verifier::spinoff_prover]
#[verifier::rlimit(40)]
proof fn lemma_step_accounts(v: WalkerView, e: EventView, p: Seq<char>)
    requires
        over_ok(v),
    ensures
        over_ok(on_event(v, e)),
        v.failed ==> on_event(v, e).failed,
        accounts(v, p) || lists_file(v, e, p) ==> accounts(on_event(v, e), p) || on_event(v, e).failed,
{
    let w = on_event(v, e);
    let hold = accounts(v, p) || lists_file(v, e, p);
    assert(v.files.take(v.files.len() as int) =~= v.files);
    assert(v.frames.take(v.frames.len() as int) =~= v.frames);
    match (v.waiting, e) {
        (WaitingView::Seed { dir }, EventView::SeedChecked(found)) => {
            lemma_advance_basic(v);
            if found && hold {
                if v.visited.contains(dir) {
                    lemma_advance_accounts(v, p);
                } else {
                    lemma_stack_kept(v, w, p);
                }
            }
        },
        (WaitingView::Definition { root }, EventView::Definition(d)) => {
            if let Some(d) = d {
                if hold {
                    assert(w.frames.take(v.frames.len() as int) =~= v.frames);
                    lemma_stack_kept(v, w, p);
                }
            }
        },
        (WaitingView::Listing { dir, owner, exclude }, EventView::Listed(l)) => {
            lemma_advance_basic(v);
            if let Some(entries) = l {
                let fr = FrameView::Entries { dir, owner, exclude, entries, next: 0 };
                let u = WalkerView { frames: v.frames.push(fr), ..v };
                lemma_advance_basic(u);
                if hold {
                    if lists_file(v, e, p) {
                        let j = choose|j: int|
                            0 <= j < entries.len() && admitted_file(#[trigger] entries[j], exclude, dir, v.home)
                                == Some(p);
                        assert(u.frames[v.frames.len() as int] == fr);
                        assert(pending_at(u, v.frames.len() as int, j, p));
                    } else {
                        assert(u.frames.take(v.frames.len() as int) =~= v.frames);
                        lemma_stack_kept(v, u, p);
                    }
                    lemma_advance_accounts(u, p);
                }
            } else if hold {
                lemma_advance_accounts(v, p);
            }
        },
        (WaitingView::File { path, size, modified_bits, owner }, EventView::FileRead(c)) => {
            if let Some(bytes) = c {
                let nf = WalkedFileView { path, hash: content_hash(bytes), size, modified_bits, root: owner };
                let u = WalkerView { files: v.files.push(nf), ..v };
                lemma_advance_basic(u);
                if hold {
                    assert(u.files.take(v.files.len() as int) =~= v.files);
                    if path == p {
                        assert(u.files[v.files.len() as int] == nf);
                        assert(has_file(u, p));
                    } else {
                        lemma_stack_kept(v, u, p);
                    }
                    lemma_advance_accounts(u, p);
                }
            }
        },
        (WaitingView::Ref { from, to }, EventView::RefChecked { exists, has_definition }) => {
            lemma_advance_basic(v);
            let u = WalkerView { warnings: v.warnings.push(WarningView::DanglingRef { from, to }), ..v };
            lemma_advance_basic(u);
            if hold {
                if exists && has_definition {
                    if v.visited.contains(to) {
                        lemma_advance_accounts(v, p);
                    } else {
                        lemma_stack_kept(v, w, p);
                    }
                } else {
                    lemma_stack_kept(v, u, p);
                    lemma_advance_accounts(u, p);
                }
            }
        },
        _ => {},
    }
}

proof fn lemma_run_accounts(v: WalkerView, es: Seq<EventView>, p: Seq<char>)
    requires
        over_ok(v),
    ensures
        over_ok(run_walk(v, es)),
        accounts(v, p) || v.failed || run_lists_file(v, es, p) ==> accounts(run_walk(v, es), p)
            || run_walk(v, es).failed,
    decreases es.len(),
{
    if es.len() > 0 {
        lemma_step_accounts(v, es[0], p);
        lemma_run_accounts(on_event(v, es[0]), es.drop_first(), p);
    }
}

/// A walk registers every file it is shown: start a walk and give it the
/// answers `es`, one per step; if some listing among them shows a regular
/// file that no exclude pattern matches and whose path `p` makes a node,
/// and the walk is then over without failure, a file at `p` is registered,
/// whatever its size or content.
pub proof fn law_walk_registers_every_listed_file(
    dir: Seq<char>,
    home: Option<Seq<char>>,
    es: Seq<EventView>,
    p: Seq<char>,
)
    requires
        run_lists_file(start_view(dir, home), es, p),
        run_walk(start_view(dir, home), es).waiting is Finished,
        !run_walk(start_view(dir, home), es).failed,
    ensures
        has_file(run_walk(start_view(dir, home), es), p),
{
    let v = start_view(dir, home);
    lemma_run_accounts(v, es, p);
    let w = run_walk(v, es);
    if !has_file(w, p) {
        let (f, j) = choose|f: int, j: int| pending_at(w, f, j, p);
    }
}

} // verus!
