//! The bridge between the walk and the database: classify every file as
//! added, removed, changed or unchanged against the previously recorded
//! hashes, in one pass.
//!
//! Content hashes play the part of timestamps in `make`: a changed hash
//! means the file needs extraction again.

use vstd::prelude::*;
use crate::paths::is_absolute;
use crate::types::{NodePath, WalkDiff, WalkDiffView, WalkedFile, WalkedFileView, files_view, paths_view};

verus! {

/// The recorded `(path, hash)` pairs as plain values.
pub open spec fn pairs_view(v: Seq<(String, String)>) -> Seq<(Seq<char>, Seq<char>)> {
    v.map_values(|p: (String, String)| (p.0@, p.1@))
}

/// No two recorded pairs share a path: the record is a map from paths.
pub open spec fn keys_distinct(pairs: Seq<(Seq<char>, Seq<char>)>) -> bool {
    forall|i: int, j: int| 0 <= i < j < pairs.len() ==> (#[trigger] pairs[i]).0 != (#[trigger] pairs[j]).0
}

/// The hash recorded for `path`: that of the first pair with this path.
pub open spec fn recorded_hash(prev: Seq<(Seq<char>, Seq<char>)>, path: Seq<char>) -> Option<Seq<char>>
    decreases prev.len(),
{
    if prev.len() == 0 {
        None
    } else if prev[0].0 == path {
        Some(prev[0].1)
    } else {
        recorded_hash(prev.drop_first(), path)
    }
}

/// A file with no recorded hash is new.
pub open spec fn is_added(prev: Seq<(Seq<char>, Seq<char>)>, f: WalkedFileView) -> bool {
    recorded_hash(prev, f.path) is None
}

/// A file whose recorded hash differs from its hash has changed.
pub open spec fn is_changed(prev: Seq<(Seq<char>, Seq<char>)>, f: WalkedFileView) -> bool {
    recorded_hash(prev, f.path) matches Some(h) && h != f.hash
}

/// A file whose recorded hash is its hash is unchanged.
pub open spec fn is_unchanged(prev: Seq<(Seq<char>, Seq<char>)>, f: WalkedFileView) -> bool {
    recorded_hash(prev, f.path) == Some(f.hash)
}

/// The paths of the walked files.
pub open spec fn walked_paths(cur: Seq<WalkedFileView>) -> Seq<Seq<char>> {
    cur.map_values(|f: WalkedFileView| f.path)
}

/// A recorded path is removed when no walked file has it; paths that are
/// not absolute make no node and are dropped.
pub open spec fn is_removed(cur: Seq<WalkedFileView>, p: Seq<char>) -> bool {
    !walked_paths(cur).contains(p) && is_absolute(p)
}

pub open spec fn keep_added(prev: Seq<(Seq<char>, Seq<char>)>) -> spec_fn(WalkedFileView) -> Option<
    WalkedFileView,
> {
    |f: WalkedFileView|
        if is_added(prev, f) {
            Some(f)
        } else {
            None
        }
}

pub open spec fn keep_changed(prev: Seq<(Seq<char>, Seq<char>)>) -> spec_fn(WalkedFileView) -> Option<
    WalkedFileView,
> {
    |f: WalkedFileView|
        if is_changed(prev, f) {
            Some(f)
        } else {
            None
        }
}

pub open spec fn keep_unchanged(prev: Seq<(Seq<char>, Seq<char>)>) -> spec_fn(WalkedFileView) -> Option<
    Seq<char>,
> {
    |f: WalkedFileView|
        if is_unchanged(prev, f) {
            Some(f.path)
        } else {
            None
        }
}

pub open spec fn keep_removed(cur: Seq<WalkedFileView>) -> spec_fn((Seq<char>, Seq<char>)) -> Option<
    Seq<char>,
> {
    |p: (Seq<char>, Seq<char>)|
        if is_removed(cur, p.0) {
            Some(p.0)
        } else {
            None
        }
}

/// The diff of the walk `cur` against the recorded pairs `prev`: the new,
/// changed and unchanged walked files in walk order, and the recorded paths
/// no walked file has, in recorded order.
pub open spec fn diff_spec(prev: Seq<(Seq<char>, Seq<char>)>, cur: Seq<WalkedFileView>) -> WalkDiffView {
    WalkDiffView {
        added: cur.filter_map(keep_added(prev)),
        removed: prev.filter_map(keep_removed(cur)),
        changed: cur.filter_map(keep_changed(prev)),
        unchanged: cur.filter_map(keep_unchanged(prev)),
    }
}

/// The hash recorded for `path`.
fn lookup<'a>(prev: &'a [(String, String)], path: &NodePath) -> (r: Option<&'a String>)
    ensures
        match r {
            Some(h) => recorded_hash(pairs_view(prev@), path@) == Some(h@),
            None => recorded_hash(pairs_view(prev@), path@) is None,
        },
{
    let ghost pv = pairs_view(prev@);
    let mut i: usize = 0;
    proof {
        assert(pv.skip(0) =~= pv);
    }
    while i < prev.len()
        invariant
            pv == pairs_view(prev@),
            i <= prev@.len(),
            recorded_hash(pv, path@) == recorded_hash(pv.skip(i as int), path@),
        decreases prev@.len() - i,
    {
        proof {
            assert(pv.skip(i as int)[0] == pv[i as int]);
            assert(pv.skip(i as int).drop_first() =~= pv.skip(i + 1));
        }
        if path.is_str(&prev[i].0) {
            return Some(&prev[i].1);
        }
        i = i + 1;
    }
    None
}

/// Whether some walked file has the path `p`.
fn walked_contains(current: &[WalkedFile], p: &String) -> (r: bool)
    ensures
        r == walked_paths(files_view(current@)).contains(p@),
{
    let ghost ps = walked_paths(files_view(current@));
    let mut i: usize = 0;
    while i < current.len()
        invariant
            ps == walked_paths(files_view(current@)),
            i <= current@.len(),
            forall|k: int| 0 <= k < i ==> ps[k] != p@,
        decreases current@.len() - i,
    {
        if current[i].path.is_str(p) {
            proof {
                assert(ps[i as int] == p@);
            }
            return true;
        }
        i = i + 1;
    }
    false
}

/// Compute the diff between the previous DB state and the current walk.
///
/// `previous` holds the `(path, hash)` pairs recorded in the DB, one per
/// path. This lets diff tell added, removed, changed and unchanged files
/// apart in one pass without DB access.
pub fn diff(previous: &[(String, String)], current: &[WalkedFile]) -> (d: WalkDiff)
    requires
        keys_distinct(pairs_view(previous@)),
    ensures
        d@ == diff_spec(pairs_view(previous@), files_view(current@)),
{
    let ghost prev = pairs_view(previous@);
    let ghost cur = files_view(current@);
    let mut added: Vec<WalkedFile> = Vec::new();
    let mut changed: Vec<WalkedFile> = Vec::new();
    let mut unchanged: Vec<NodePath> = Vec::new();
    let mut i: usize = 0;
    while i < current.len()
        invariant
            prev == pairs_view(previous@),
            cur == files_view(current@),
            i <= current@.len(),
            files_view(added@) == cur.take(i as int).filter_map(keep_added(prev)),
            files_view(changed@) == cur.take(i as int).filter_map(keep_changed(prev)),
            paths_view(unchanged@) == cur.take(i as int).filter_map(keep_unchanged(prev)),
        decreases current@.len() - i,
    {
        let file = &current[i];
        let ghost f = cur[i as int];
        proof {
            assert(cur.take(i + 1).drop_last() =~= cur.take(i as int));
            assert(cur.take(i + 1).last() == f);
            assert(file@ == f);
        }
        match lookup(previous, &file.path) {
            None => {
                let c = file.clone();
                let ghost before = added@;
                added.push(c);
                proof {
                    assert(files_view(added@) =~= files_view(before).push(f));
                }
            },
            Some(old_hash) => {
                if *old_hash == file.hash {
                    let c = file.path.clone();
                    let ghost before = unchanged@;
                    unchanged.push(c);
                    proof {
                        assert(paths_view(unchanged@) =~= paths_view(before).push(f.path));
                    }
                } else {
                    let c = file.clone();
                    let ghost before = changed@;
                    changed.push(c);
                    proof {
                        assert(files_view(changed@) =~= files_view(before).push(f));
                    }
                }
            },
        }
        i = i + 1;
    }
    proof {
        assert(cur.take(i as int) =~= cur);
    }
    let mut removed: Vec<NodePath> = Vec::new();
    let mut j: usize = 0;
    while j < previous.len()
        invariant
            prev == pairs_view(previous@),
            cur == files_view(current@),
            j <= previous@.len(),
            paths_view(removed@) == prev.take(j as int).filter_map(keep_removed(cur)),
        decreases previous@.len() - j,
    {
        let p = &previous[j].0;
        proof {
            assert(prev.take(j + 1).drop_last() =~= prev.take(j as int));
            assert(prev.take(j + 1).last() == prev[j as int]);
        }
        if !walked_contains(current, p) {
            match NodePath::from_absolute(p.clone()) {
                Some(np) => {
                    let ghost before = removed@;
                    removed.push(np);
                    proof {
                        assert(paths_view(removed@) =~= paths_view(before).push(p@));
                    }
                },
                None => {},
            }
        }
        j = j + 1;
    }
    proof {
        assert(prev.take(j as int) =~= prev);
    }
    WalkDiff { added, removed, changed, unchanged }
}

/// Every walked file lands in exactly one of `added`, `changed` and
/// `unchanged`, so the three are together as long as the walk; each
/// `added` file has no recorded hash, each `changed` one a different hash;
/// and no removed path is the path of a walked file.
pub proof fn law_diff_partitions(prev: Seq<(Seq<char>, Seq<char>)>, cur: Seq<WalkedFileView>)
    ensures
        diff_spec(prev, cur).added.len() + diff_spec(prev, cur).changed.len() + diff_spec(
            prev,
            cur,
        ).unchanged.len() == cur.len(),
        forall|k: int|
            0 <= k < diff_spec(prev, cur).added.len() ==> is_added(
                prev,
                #[trigger] diff_spec(prev, cur).added[k],
            ),
        forall|k: int|
            0 <= k < diff_spec(prev, cur).changed.len() ==> is_changed(
                prev,
                #[trigger] diff_spec(prev, cur).changed[k],
            ),
        forall|k: int|
            0 <= k < diff_spec(prev, cur).removed.len() ==> !walked_paths(cur).contains(
                #[trigger] diff_spec(prev, cur).removed[k],
            ),
{
    lemma_classes(prev, cur);
    lemma_removed(prev, cur);
}

proof fn lemma_classes(prev: Seq<(Seq<char>, Seq<char>)>, cur: Seq<WalkedFileView>)
    ensures
        cur.filter_map(keep_added(prev)).len() + cur.filter_map(keep_changed(prev)).len()
            + cur.filter_map(keep_unchanged(prev)).len() == cur.len(),
        forall|k: int|
            0 <= k < cur.filter_map(keep_added(prev)).len() ==> is_added(
                prev,
                #[trigger] cur.filter_map(keep_added(prev))[k],
            ),
        forall|k: int|
            0 <= k < cur.filter_map(keep_changed(prev)).len() ==> is_changed(
                prev,
                #[trigger] cur.filter_map(keep_changed(prev))[k],
            ),
    decreases cur.len(),
{
    if cur.len() > 0 {
        lemma_classes(prev, cur.drop_last());
        let a = cur.drop_last().filter_map(keep_added(prev));
        let c = cur.drop_last().filter_map(keep_changed(prev));
        assert forall|k: int| 0 <= k < cur.filter_map(keep_added(prev)).len() implies is_added(
            prev,
            #[trigger] cur.filter_map(keep_added(prev))[k],
        ) by {
            if k < a.len() {
                assert(cur.filter_map(keep_added(prev))[k] == a[k]);
            }
        }
        assert forall|k: int| 0 <= k < cur.filter_map(keep_changed(prev)).len() implies is_changed(
            prev,
            #[trigger] cur.filter_map(keep_changed(prev))[k],
        ) by {
            if k < c.len() {
                assert(cur.filter_map(keep_changed(prev))[k] == c[k]);
            }
        }
    }
}

proof fn lemma_removed(prev: Seq<(Seq<char>, Seq<char>)>, cur: Seq<WalkedFileView>)
    ensures
        forall|k: int|
            0 <= k < prev.filter_map(keep_removed(cur)).len() ==> !walked_paths(cur).contains(
                #[trigger] prev.filter_map(keep_removed(cur))[k],
            ),
    decreases prev.len(),
{
    if prev.len() > 0 {
        lemma_removed(prev.drop_last(), cur);
        let r = prev.drop_last().filter_map(keep_removed(cur));
        assert forall|k: int| 0 <= k < prev.filter_map(keep_removed(cur)).len() implies !walked_paths(
            cur,
        ).contains(#[trigger] prev.filter_map(keep_removed(cur))[k]) by {
            if k < r.len() {
                assert(prev.filter_map(keep_removed(cur))[k] == r[k]);
            }
        }
    }
}

/// The `(path, hash)` pairs a walk records.
pub open spec fn recorded_pairs(cur: Seq<WalkedFileView>) -> Seq<(Seq<char>, Seq<char>)> {
    cur.map_values(|f: WalkedFileView| (f.path, f.hash))
}

proof fn lemma_recorded_own_hash(cur: Seq<WalkedFileView>, i: int)
    requires
        walked_paths(cur).no_duplicates(),
        0 <= i < cur.len(),
    ensures
        recorded_hash(recorded_pairs(cur), cur[i].path) == Some(cur[i].hash),
    decreases cur.len(),
{
    let ps = recorded_pairs(cur);
    if i > 0 {
        let rest = cur.drop_first();
        assert(ps.drop_first() =~= recorded_pairs(rest));
        assert(walked_paths(rest) =~= walked_paths(cur).drop_first());
        assert(walked_paths(cur)[0] != walked_paths(cur)[i]);
        lemma_recorded_own_hash(rest, i - 1);
    }
}

/// Collecting again with nothing changed is quiet: against the hashes a
/// walk recorded, the same walk (whose paths are distinct) has nothing
/// added, changed or removed, and every file unchanged.
pub proof fn law_rediff_is_quiet(cur: Seq<WalkedFileView>)
    requires
        walked_paths(cur).no_duplicates(),
    ensures
        diff_spec(recorded_pairs(cur), cur).added.len() == 0,
        diff_spec(recorded_pairs(cur), cur).changed.len() == 0,
        diff_spec(recorded_pairs(cur), cur).removed.len() == 0,
        diff_spec(recorded_pairs(cur), cur).unchanged == walked_paths(cur),
{
    lemma_quiet_upto(cur, cur.len() as int);
    assert(cur.take(cur.len() as int) =~= cur);
    lemma_none_removed(recorded_pairs(cur), cur, cur.len() as int);
    assert(recorded_pairs(cur).take(cur.len() as int) =~= recorded_pairs(cur));
}

proof fn lemma_quiet_upto(cur: Seq<WalkedFileView>, n: int)
    requires
        walked_paths(cur).no_duplicates(),
        0 <= n <= cur.len(),
    ensures
        cur.take(n).filter_map(keep_added(recorded_pairs(cur))).len() == 0,
        cur.take(n).filter_map(keep_changed(recorded_pairs(cur))).len() == 0,
        cur.take(n).filter_map(keep_unchanged(recorded_pairs(cur))) == walked_paths(cur).take(n),
    decreases n,
{
    let prev = recorded_pairs(cur);
    if n > 0 {
        lemma_quiet_upto(cur, n - 1);
        lemma_recorded_own_hash(cur, n - 1);
        assert(cur.take(n).drop_last() =~= cur.take(n - 1));
        assert(cur.take(n).last() == cur[n - 1]);
        assert(walked_paths(cur).take(n) =~= walked_paths(cur).take(n - 1).push(cur[n - 1].path));
    } else {
        assert(walked_paths(cur).take(0) =~= Seq::<Seq<char>>::empty());
    }
}

proof fn lemma_none_removed(prev: Seq<(Seq<char>, Seq<char>)>, cur: Seq<WalkedFileView>, n: int)
    requires
        prev == recorded_pairs(cur),
        0 <= n <= prev.len(),
    ensures
        prev.take(n).filter_map(keep_removed(cur)).len() == 0,
    decreases n,
{
    if n > 0 {
        lemma_none_removed(prev, cur, n - 1);
        assert(prev.take(n).drop_last() =~= prev.take(n - 1));
        assert(prev.take(n).last() == prev[n - 1]);
        assert(walked_paths(cur)[n - 1] == prev[n - 1].0);
    }
}

} // verus!
