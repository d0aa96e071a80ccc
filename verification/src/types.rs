//! The vocabulary of the graph: node identity, edges, regions, prose,
//! attributes, and the discovery types.
//!
//! Every entity in the system is a file, and its identity is its path.
//! `NodePath` holds that path as text; `NodePath::new` is the one way from
//! a user-written path (absolute, or starting with `~`) to a node identity,
//! and it resolves `.` and `..` lexically.

use vstd::prelude::*;
use crate::paths::{
    comp_shape, lemma_clean_is_clean_list, lemma_clean_keeps_root, lemma_clean_list_fixed,
    lemma_components_shape, lemma_render_round_trip, law_rooted_render_is_absolute, plain_name, rooted,
    Comp, PathComp, clean, clean_comps, clean_exec, comp_of, components, components_exec, comps_of,
    comps_within, is_absolute, join, path_starts_with, render, render_exec, starts_with_tilde,
};
use crate::text::chars_of;

verus! {

/// A validated, tilde-expanded path identifying a node in the graph.
/// The newtype keeps raw strings from being used where a node identity is
/// expected.
#[derive(Debug, PartialEq, Eq, Hash, PartialOrd, Ord)]
pub struct NodePath(String);

impl View for NodePath {
    type V = Seq<char>;

    closed spec fn view(&self) -> Seq<char> {
        self.0@
    }
}

impl Clone for NodePath {
    fn clone(&self) -> (r: Self)
        ensures
            r@ == self@,
    {
        NodePath(self.0.clone())
    }
}

/// `std::path::PathBuf`, the owned path `NodePath::to_path_buf` gives.
#[verifier::external_type_specification]
#[verifier::external_body]
pub struct ExPathBuf(std::path::PathBuf);

/// `std::path::Path`, the borrowed path `NodePath::as_path` gives.
#[verifier::external_type_specification]
#[verifier::external_body]
pub struct ExPath(std::path::Path);

/// The `PathBuf` that `PathBuf::from` makes of the text `s`.
pub uninterp spec fn path_buf_of(s: Seq<char>) -> std::path::PathBuf;

/// The `Path` that `Path::new` makes of the text `s`.
pub uninterp spec fn path_of(s: Seq<char>) -> &'static std::path::Path;

/// Calls `std::path::PathBuf::from` on `s`. Trusted: the result is a
/// function of the text alone (named `path_buf_of`).
#[verifier::external_body]
fn path_buf_from(s: &str) -> (r: std::path::PathBuf)
    ensures
        r == path_buf_of(s@),
{
    std::path::PathBuf::from(s)
}

/// Calls `std::path::Path::new` on `s`, which borrows the text as a path.
/// Trusted: the result is a function of the text alone (named `path_of`).
#[verifier::external_body]
fn path_new(s: &str) -> (r: &std::path::Path)
    ensures
        r == path_of(s@),
{
    std::path::Path::new(s)
}

/// What `NodePath::new` makes of `path`, given the home directory: a path
/// whose first component is `~` becomes the components of `home` followed
/// by the components after `~`, cleaned; an absolute path is cleaned; any
/// other path, or `~` without an absolute home directory, makes no node.
pub open spec fn node_new(path: Seq<char>, home: Option<Seq<char>>) -> Option<Seq<char>> {
    if starts_with_tilde(path) {
        match home {
            Some(h) => if is_absolute(h) {
                Some(render(clean_comps(components(h) + components(path).drop_first())))
            } else {
                None
            },
            None => None,
        }
    } else if is_absolute(path) {
        Some(clean(path))
    } else {
        None
    }
}

/// The components a node is made of before cleaning: those of `home`
/// followed by those after `~` for a `~` path, those of the path otherwise.
pub open spec fn node_parts(path: Seq<char>, home: Seq<char>) -> Seq<Comp> {
    if starts_with_tilde(path) {
        components(home) + components(path).drop_first()
    } else {
        components(path)
    }
}

proof fn lemma_node_parts_shape(path: Seq<char>, home: Seq<char>)
    requires
        starts_with_tilde(path) ==> is_absolute(home),
        !starts_with_tilde(path) ==> is_absolute(path),
    ensures
        comp_shape(node_parts(path, home)),
        node_parts(path, home).len() > 0,
        node_parts(path, home)[0] is Root,
{
    lemma_components_shape(path);
    lemma_components_shape(home);
    if starts_with_tilde(path) {
        let a = components(home);
        let b = components(path).drop_first();
        let cs = a + b;
        assert(a.len() > 0 && a[0] is Root);
        assert forall|i: int| 0 <= i < cs.len() implies match #[trigger] cs[i] {
            Comp::Root => i == 0,
            Comp::Cur => i == 0,
            Comp::Normal(g) => plain_name(g),
            Comp::Parent => true,
        } by {
            if i >= a.len() {
                assert(cs[i] == components(path)[i - a.len() + 1]);
            }
        }
    }
}

/// Every node path is absolute and resolved (its components are the root
/// and plain names, no `.` or `..`), and making a node of it again, with
/// any home directory, gives it back.
pub proof fn law_node_path_normal(path: Seq<char>, home: Option<Seq<char>>, other_home: Option<Seq<char>>)
    requires
        node_new(path, home) is Some,
    ensures
        rooted(node_new(path, home)->0),
        is_absolute(node_new(path, home)->0),
        node_new(node_new(path, home)->0, other_home) == node_new(path, home),
{
    let h = match home {
        Some(h) => h,
        None => seq![],
    };
    lemma_node_parts_shape(path, h);
    let cs = node_parts(path, h);
    let cl = clean_comps(cs);
    lemma_clean_is_clean_list(cs);
    lemma_clean_keeps_root(cs);
    let q = render(cl);
    assert(node_new(path, home) == Some(q));
    lemma_render_round_trip(cl);
    law_rooted_render_is_absolute(cl);
    lemma_clean_list_fixed(cl);
    assert(!starts_with_tilde(q));
}

/// What `from_cwd` makes is a node path as `new` makes them: absolute,
/// resolved, and given back by `new`.
pub proof fn law_from_cwd_normal(
    path: Seq<char>,
    home: Option<Seq<char>>,
    cwd: Option<Seq<char>>,
    other_home: Option<Seq<char>>,
)
    requires
        node_from_cwd(path, home, cwd) is Some,
    ensures
        rooted(node_from_cwd(path, home, cwd)->0),
        is_absolute(node_from_cwd(path, home, cwd)->0),
        node_new(node_from_cwd(path, home, cwd)->0, other_home) == node_from_cwd(path, home, cwd),
{
    if starts_with_tilde(path) || is_absolute(path) {
        law_node_path_normal(path, home, other_home);
    } else {
        let c = cwd->0;
        let j = join(c, path);
        assert(is_absolute(j));
        lemma_components_shape(j);
        assert(components(j)[0] is Root);
        assert(!starts_with_tilde(j));
        assert(node_new(j, home) == node_from_cwd(path, home, cwd));
        law_node_path_normal(j, home, other_home);
    }
}

/// What `NodePath::from_cwd` makes of `path`: a `~` path as `node_new`, an
/// absolute path cleaned, a relative one joined onto the working directory
/// (which must be absolute) and cleaned.
pub open spec fn node_from_cwd(path: Seq<char>, home: Option<Seq<char>>, cwd: Option<Seq<char>>) -> Option<
    Seq<char>,
> {
    if starts_with_tilde(path) {
        node_new(path, home)
    } else if is_absolute(path) {
        Some(clean(path))
    } else {
        match cwd {
            Some(c) => if is_absolute(c) {
                Some(clean(join(c, path)))
            } else {
                None
            },
            None => None,
        }
    }
}

/// The characters of `a` followed by those of `b`.
fn concat_chars(a: &Vec<char>, b: &Vec<char>) -> (r: Vec<char>)
    ensures
        r@ == a@ + b@,
{
    let mut r: Vec<char> = Vec::new();
    let mut i: usize = 0;
    while i < a.len()
        invariant
            i <= a@.len(),
            r@ == a@.take(i as int),
        decreases a@.len() - i,
    {
        r.push(a[i]);
        proof {
            assert(a@.take(i + 1) =~= a@.take(i as int).push(a@[i as int]));
        }
        i = i + 1;
    }
    let mut j: usize = 0;
    while j < b.len()
        invariant
            i == a@.len(),
            j <= b@.len(),
            r@ == a@ + b@.take(j as int),
        decreases b@.len() - j,
    {
        r.push(b[j]);
        proof {
            assert(a@ + b@.take(j + 1) =~= (a@ + b@.take(j as int)).push(b@[j as int]));
        }
        j = j + 1;
    }
    proof {
        assert(a@.take(i as int) =~= a@);
        assert(b@.take(j as int) =~= b@);
    }
    r
}

/// Whether a component is the single character `~`.
fn is_tilde(s: &Vec<char>, c: PathComp) -> (r: bool)
    requires
        comps_within(s@.len(), seq![c]),
    ensures
        r == (comp_of(s@, c) == Comp::Normal(seq!['~'])),
{
    proof {
        assert(seq![c][0] == c);
    }
    match c {
        PathComp::Normal(a, b) => {
            let ghost g = s@.subrange(a as int, b as int);
            if b - a == 1 && s[a] == '~' {
                proof {
                    assert(g =~= seq!['~']);
                }
                true
            } else {
                proof {
                    if g == seq!['~'] {
                        assert(g.len() == 1);
                        assert(g[0] == s@[a as int]);
                        assert(false);
                    }
                }
                false
            }
        },
        _ => false,
    }
}

/// The cleaned path `s` makes.
fn clean_chars(s: &Vec<char>) -> (r: String)
    ensures
        r@ == clean(s@),
{
    let cs = components_exec(s.as_slice());
    let kept = clean_exec(s.as_slice(), &cs);
    render_exec(s.as_slice(), &kept)
}

/// Clean a path by resolving `.` and `..` components lexically, without
/// touching the file system (no symlink resolution).
pub fn clean_path(path: &str) -> (r: String)
    ensures
        r@ == clean(path@),
{
    clean_chars(&chars_of(path))
}

/// Whether the path `s` starts with the component `~`.
fn tilde_first(s: &Vec<char>, cs: &Vec<PathComp>) -> (r: bool)
    requires
        comps_of(s@, cs@) == components(s@),
        comps_within(s@.len(), cs@),
    ensures
        r == starts_with_tilde(s@),
{
    if cs.len() == 0 {
        false
    } else {
        proof {
            assert(comps_of(s@, cs@)[0] == comp_of(s@, cs@[0]));
            assert(comps_within(s@.len(), seq![cs@[0]])) by {
                assert(seq![cs@[0]][0] == cs@[0]);
            }
        }
        is_tilde(s, cs[0])
    }
}

/// The home directory's components followed by those of `p` after its
/// first, rendered after cleaning.
fn expand_home(h: &Vec<char>, p: &Vec<char>, pcs: &Vec<PathComp>) -> (r: String)
    requires
        comps_of(p@, pcs@) == components(p@),
        comps_within(p@.len(), pcs@),
        pcs@.len() >= 1,
    ensures
        r@ == render(clean_comps(components(h@) + components(p@).drop_first())),
{
    let buf = concat_chars(h, p);
    let bl = buf.len();
    let hl = h.len();
    let hcs = components_exec(h.as_slice());
    let mut all: Vec<PathComp> = Vec::new();
    let mut i: usize = 0;
    while i < hcs.len()
        invariant
            buf@ == h@ + p@,
            hl == h@.len(),
            comps_of(h@, hcs@) == components(h@),
            comps_within(h@.len(), hcs@),
            i <= hcs@.len(),
            comps_within(buf@.len(), all@),
            comps_of(buf@, all@) == components(h@).take(i as int),
        decreases hcs@.len() - i,
    {
        let c = hcs[i];
        let ghost old_all = all@;
        all.push(c);
        proof {
            assert(comps_within(h@.len(), seq![c])) by {
                assert(hcs@[i as int] == c);
                assert(seq![c][0] == c);
            }
            match c {
                PathComp::Normal(a, b) => {
                    assert(buf@.subrange(a as int, b as int) =~= h@.subrange(a as int, b as int));
                },
                _ => {},
            }
            assert(comp_of(buf@, c) == comp_of(h@, c));
            assert(components(h@)[i as int] == comp_of(h@, c));
            assert(comps_of(buf@, all@) =~= comps_of(buf@, old_all).push(comp_of(buf@, c)));
            assert(comps_of(buf@, all@) =~= components(h@).take(i + 1));
        }
        i = i + 1;
    }
    let mut j: usize = 1;
    proof {
        assert(components(h@).take(i as int) =~= components(h@));
        assert(comps_of(buf@, all@) =~= components(h@) + components(p@).drop_first().take(0));
    }
    while j < pcs.len()
        invariant
            buf@ == h@ + p@,
            bl == buf@.len(),
            hl == h@.len(),
            comps_of(p@, pcs@) == components(p@),
            comps_within(p@.len(), pcs@),
            1 <= j <= pcs@.len(),
            comps_within(buf@.len(), all@),
            comps_of(buf@, all@) == components(h@) + components(p@).drop_first().take(j - 1),
        decreases pcs@.len() - j,
    {
        let c = pcs[j];
        proof {
            assert(comps_within(p@.len(), seq![c])) by {
                assert(pcs@[j as int] == c);
                assert(seq![c][0] == c);
            }
        }
        let shifted = match c {
            PathComp::Normal(a, b) => PathComp::Normal(a + hl, b + hl),
            other => other,
        };
        let ghost old_all = all@;
        all.push(shifted);
        proof {
            assert(comps_within(p@.len(), seq![c])) by {
                assert(pcs@[j as int] == c);
                assert(seq![c][0] == c);
            }
            assert(comps_of(buf@, all@) =~= comps_of(buf@, old_all).push(comp_of(buf@, shifted)));
            match c {
                PathComp::Normal(a, b) => {
                    assert(buf@.subrange(a + hl, b + hl) =~= p@.subrange(a as int, b as int));
                },
                _ => {},
            }
            assert(components(p@)[j as int] == comp_of(p@, c));
            assert(comp_of(buf@, shifted) == comp_of(p@, c));
            assert(comps_of(buf@, all@) =~= components(h@) + components(p@).drop_first().take(j as int));
        }
        j = j + 1;
    }
    proof {
        assert(components(p@).drop_first().take(j - 1) =~= components(p@).drop_first());
    }
    let kept = clean_exec(buf.as_slice(), &all);
    render_exec(buf.as_slice(), &kept)
}

impl NodePath {
    /// Create a `NodePath` from a path that is absolute or starts with `~`,
    /// given the user's home directory (`None` when it is unknown). Returns
    /// `None` for a relative path without `~`; `from_cwd` resolves those.
    pub fn new(path: &str, home: Option<&str>) -> (r: Option<NodePath>)
        ensures
            match r {
                Some(np) => node_new(path@, opt_seq(home)) == Some(np@),
                None => node_new(path@, opt_seq(home)) is None,
            },
    {
        let p = chars_of(path);
        let pcs = components_exec(p.as_slice());
        if tilde_first(&p, &pcs) {
            match home {
                Some(h) => {
                    let hc = chars_of(h);
                    if hc.len() > 0 && hc[0] == '/' {
                        Some(NodePath(expand_home(&hc, &p, &pcs)))
                    } else {
                        None
                    }
                },
                None => None,
            }
        } else if p.len() > 0 && p[0] == '/' {
            Some(NodePath(clean_chars(&p)))
        } else {
            None
        }
    }

    /// Create a `NodePath` from a possibly relative path, resolving it
    /// against the working directory `cwd`; `.` and `..` are resolved.
    pub fn from_cwd(path: &str, home: Option<&str>, cwd: Option<&str>) -> (r: Option<NodePath>)
        ensures
            match r {
                Some(np) => node_from_cwd(path@, opt_seq(home), opt_seq(cwd)) == Some(np@),
                None => node_from_cwd(path@, opt_seq(home), opt_seq(cwd)) is None,
            },
    {
        let p = chars_of(path);
        let pcs = components_exec(p.as_slice());
        if tilde_first(&p, &pcs) {
            return Self::new(path, home);
        }
        if p.len() > 0 && p[0] == '/' {
            return Some(NodePath(clean_chars(&p)));
        }
        match cwd {
            Some(c) => {
                let cc = chars_of(c);
                if cc.len() > 0 && cc[0] == '/' {
                    let joined = join_chars(&cc, &p);
                    Some(NodePath(clean_chars(&joined)))
                } else {
                    None
                }
            },
            None => None,
        }
    }

    /// Create a `NodePath` from a path already known to be absolute, as
    /// read back from the database; the path is kept as it is.
    pub fn from_absolute(path: String) -> (r: Option<NodePath>)
        ensures
            match r {
                Some(np) => is_absolute(path@) && np@ == path@,
                None => !is_absolute(path@),
            },
    {
        let p = chars_of(path.as_str());
        if p.len() > 0 && p[0] == '/' {
            Some(NodePath(path))
        } else {
            None
        }
    }

    /// Whether this path is, character for character, `s`.
    pub fn is_str(&self, s: &String) -> (r: bool)
        ensures
            r == (self@ == s@),
    {
        self.0 == *s
    }

    /// Whether two node paths are the same text.
    pub fn same_as(&self, other: &NodePath) -> (r: bool)
        ensures
            r == (self@ == other@),
    {
        self.0 == other.0
    }

    /// The node's path, borrowed as a `Path`.
    pub fn as_path(&self) -> (r: &std::path::Path)
        ensures
            r == path_of(self@),
    {
        path_new(self.0.as_str())
    }

    /// The node's path as an owned `PathBuf`.
    pub fn to_path_buf(&self) -> (r: std::path::PathBuf)
        ensures
            r == path_buf_of(self@),
    {
        path_buf_from(self.0.as_str())
    }

    /// The path as a string, for DB storage.
    pub fn as_str(&self) -> (r: &str)
        ensures
            r@ == self@,
    {
        self.0.as_str()
    }

    /// Check whether this path starts with the given prefix, component by
    /// component.
    pub fn starts_with(&self, prefix: &NodePath) -> (r: bool)
        ensures
            r == path_starts_with(self@, prefix@),
    {
        let a = chars_of(self.0.as_str());
        let b = chars_of(prefix.0.as_str());
        let ac = components_exec(a.as_slice());
        let bc = components_exec(b.as_slice());
        if bc.len() > ac.len() {
            return false;
        }
        let mut i: usize = 0;
        while i < bc.len()
            invariant
                a@ == self@,
                b@ == prefix@,
                comps_of(a@, ac@) == components(a@),
                comps_of(b@, bc@) == components(b@),
                comps_within(a@.len(), ac@),
                comps_within(b@.len(), bc@),
                bc@.len() <= ac@.len(),
                i <= bc@.len(),
                forall|k: int| 0 <= k < i ==> components(a@)[k] == components(b@)[k],
            decreases bc@.len() - i,
        {
            let same = same_comp(&a, ac[i], &b, bc[i]);
            proof {
                assert(components(a@)[i as int] == comp_of(a@, ac@[i as int]));
                assert(components(b@)[i as int] == comp_of(b@, bc@[i as int]));
                assert(comps_within(a@.len(), seq![ac@[i as int]])) by {
                    assert(seq![ac@[i as int]][0] == ac@[i as int]);
                }
                assert(comps_within(b@.len(), seq![bc@[i as int]])) by {
                    assert(seq![bc@[i as int]][0] == bc@[i as int]);
                }
            }
            if !same {
                proof {
                    let n = components(b@).len() as int;
                    assert(components(a@).take(n)[i as int] == components(a@)[i as int]);
                    assert(components(a@).take(n)[i as int] != components(b@)[i as int]);
                    assert(a@ == self@);
                    assert(b@ == prefix@);
                    assert(components(a@).take(n) != components(b@));
                }
                return false;
            }
            i = i + 1;
        }
        proof {
            let n = components(b@).len() as int;
            assert(components(a@).take(n) =~= components(b@));
        }
        true
    }

    /// Join a child onto this path, returning a new `NodePath`.
    pub fn join(&self, child: &str) -> (r: NodePath)
        ensures
            r@ == join(self@, child@),
    {
        let a = chars_of(self.0.as_str());
        let c = chars_of(child);
        let j = join_chars(&a, &c);
        let mut s = String::new();
        let mut i: usize = 0;
        while i < j.len()
            invariant
                i <= j@.len(),
                s@ == j@.take(i as int),
            decreases j@.len() - i,
        {
            s.push(j[i]);
            proof {
                assert(j@.take(i + 1) =~= j@.take(i as int).push(j@[i as int]));
            }
            i = i + 1;
        }
        proof {
            assert(j@.take(i as int) =~= j@);
        }
        NodePath(s)
    }
}

/// The characters of an optional string.
pub open spec fn opt_seq(o: Option<&str>) -> Option<Seq<char>> {
    match o {
        Some(s) => Some(s@),
        None => None,
    }
}

/// `join` on character vectors.
fn join_chars(a: &Vec<char>, c: &Vec<char>) -> (r: Vec<char>)
    ensures
        r@ == join(a@, c@),
{
    if c.len() > 0 && c[0] == '/' {
        let e: Vec<char> = Vec::new();
        let r = concat_chars(&e, c);
        proof {
            assert(r@ =~= c@);
        }
        r
    } else if a.len() > 0 && a[a.len() - 1] != '/' {
        let slash: Vec<char> = vec!['/'];
        let t = concat_chars(a, &slash);
        let r = concat_chars(&t, c);
        proof {
            assert(a@.last() == a@[a@.len() - 1]);
        }
        r
    } else {
        concat_chars(a, c)
    }
}

/// Whether two components, in their own texts, are equal.
fn same_comp(a: &Vec<char>, x: PathComp, b: &Vec<char>, y: PathComp) -> (r: bool)
    requires
        comps_within(a@.len(), seq![x]),
        comps_within(b@.len(), seq![y]),
    ensures
        r == (comp_of(a@, x) == comp_of(b@, y)),
{
    proof {
        assert(seq![x][0] == x);
        assert(seq![y][0] == y);
    }
    match (x, y) {
        (PathComp::Root, PathComp::Root) => true,
        (PathComp::Cur, PathComp::Cur) => true,
        (PathComp::Parent, PathComp::Parent) => true,
        (PathComp::Normal(a0, a1), PathComp::Normal(b0, b1)) => {
            if a1 - a0 != b1 - b0 {
                proof {
                    if a@.subrange(a0 as int, a1 as int) == b@.subrange(b0 as int, b1 as int) {
                        assert(a@.subrange(a0 as int, a1 as int).len() == a1 - a0);
                    }
                }
                return false;
            }
            let mut k: usize = 0;
            proof {
                assert(a@.subrange(a0 as int, a0 as int) =~= b@.subrange(b0 as int, b0 as int));
            }
            while k < a1 - a0
                invariant
                    x == PathComp::Normal(a0, a1),
                    y == PathComp::Normal(b0, b1),
                    a0 <= a1 <= a@.len(),
                    b0 <= b1 <= b@.len(),
                    a1 - a0 == b1 - b0,
                    k <= a1 - a0,
                    a@.subrange(a0 as int, a0 + k) == b@.subrange(b0 as int, b0 + k),
                decreases a1 - a0 - k,
            {
                if a[a0 + k] != b[b0 + k] {
                    proof {
                        if a@.subrange(a0 as int, a1 as int) == b@.subrange(b0 as int, b1 as int) {
                            assert(a@.subrange(a0 as int, a1 as int)[k as int] == a@[a0 + k]);
                            assert(b@.subrange(b0 as int, b1 as int)[k as int] == b@[b0 + k]);
                        }
                    }
                    return false;
                }
                proof {
                    assert(a@.subrange(a0 as int, a0 + k + 1) =~= a@.subrange(a0 as int, a0 + k).push(
                        a@[a0 + k],
                    ));
                    assert(b@.subrange(b0 as int, b0 + k + 1) =~= b@.subrange(b0 as int, b0 + k).push(
                        b@[b0 + k],
                    ));
                }
                k = k + 1;
            }
            proof {
                assert(a@.subrange(a0 as int, a1 as int) =~= b@.subrange(b0 as int, b1 as int));
            }
            true
        },
        _ => false,
    }
}


// ---------------------------------------------------------------------------
// Graph primitives: edges, regions, attributes.

/// An edge in the knowledge graph: a link from one file to another,
/// optionally targeting a named region via fragment.
#[derive(Debug, PartialEq, Eq)]
pub struct Edge {
    pub source: NodePath,
    pub target: NodePath,
    pub fragment: Option<String>,
}

/// A named region within a source file, delimited by `@region`/`@end` markers.
#[derive(Debug, PartialEq, Eq)]
pub struct Region {
    pub file: NodePath,
    pub name: String,
    pub start_line: u32,
    pub end_line: u32,
    pub prose: Vec<ProseBlock>,
}

/// A contiguous block of prose comments (`//|` lines) within a region.
#[derive(Debug, PartialEq, Eq)]
pub struct ProseBlock {
    pub start_line: u32,
    /// Raw markdown.
    pub content: String,
}

/// A frontmatter key-value pair extracted from a file.
#[derive(Debug, PartialEq, Eq)]
pub struct Attribute {
    pub file: NodePath,
    pub key: String,
    /// Always a string; projectors interpret it.
    pub value: String,
}

/// What an edge is, as values.
pub struct EdgeView {
    pub source: Seq<char>,
    pub target: Seq<char>,
    pub fragment: Option<Seq<char>>,
}

/// What a prose block is, as values.
pub struct ProseView {
    pub start_line: u32,
    pub content: Seq<char>,
}

/// What a region is, as values.
pub struct RegionView {
    pub file: Seq<char>,
    pub name: Seq<char>,
    pub start_line: u32,
    pub end_line: u32,
    pub prose: Seq<ProseView>,
}

/// What an attribute is, as values.
pub struct AttributeView {
    pub file: Seq<char>,
    pub key: Seq<char>,
    pub value: Seq<char>,
}

/// The characters of an optional string.
pub open spec fn opt_string(o: Option<String>) -> Option<Seq<char>> {
    match o {
        Some(s) => Some(s@),
        None => None,
    }
}

impl View for Edge {
    type V = EdgeView;

    open spec fn view(&self) -> EdgeView {
        EdgeView { source: self.source@, target: self.target@, fragment: opt_string(self.fragment) }
    }
}

impl View for ProseBlock {
    type V = ProseView;

    open spec fn view(&self) -> ProseView {
        ProseView { start_line: self.start_line, content: self.content@ }
    }
}

/// The views of a list of prose blocks.
pub open spec fn prose_view(v: Seq<ProseBlock>) -> Seq<ProseView> {
    v.map_values(|b: ProseBlock| b@)
}

impl View for Region {
    type V = RegionView;

    open spec fn view(&self) -> RegionView {
        RegionView {
            file: self.file@,
            name: self.name@,
            start_line: self.start_line,
            end_line: self.end_line,
            prose: prose_view(self.prose@),
        }
    }
}

impl View for Attribute {
    type V = AttributeView;

    open spec fn view(&self) -> AttributeView {
        AttributeView { file: self.file@, key: self.key@, value: self.value@ }
    }
}

impl Clone for Edge {
    fn clone(&self) -> (r: Self)
        ensures
            r@ == self@,
    {
        let fragment = match &self.fragment {
            Some(f) => Some(f.clone()),
            None => None,
        };
        Edge { source: self.source.clone(), target: self.target.clone(), fragment }
    }
}

impl Clone for ProseBlock {
    fn clone(&self) -> (r: Self)
        ensures
            r@ == self@,
    {
        ProseBlock { start_line: self.start_line, content: self.content.clone() }
    }
}

impl Clone for Region {
    fn clone(&self) -> (r: Self)
        ensures
            r@ == self@,
    {
        let mut prose: Vec<ProseBlock> = Vec::new();
        let mut i: usize = 0;
        while i < self.prose.len()
            invariant
                i <= self.prose@.len(),
                prose_view(prose@) == prose_view(self.prose@).take(i as int),
            decreases self.prose@.len() - i,
        {
            let ghost before = prose@;
            prose.push(self.prose[i].clone());
            proof {
                assert(prose_view(prose@) =~= prose_view(before).push(self.prose@[i as int]@));
                assert(prose_view(self.prose@).take(i + 1) =~= prose_view(self.prose@).take(i as int).push(
                    self.prose@[i as int]@,
                ));
            }
            i = i + 1;
        }
        proof {
            assert(prose_view(self.prose@).take(i as int) =~= prose_view(self.prose@));
        }
        Region {
            file: self.file.clone(),
            name: self.name.clone(),
            start_line: self.start_line,
            end_line: self.end_line,
            prose,
        }
    }
}

impl Clone for Attribute {
    fn clone(&self) -> (r: Self)
        ensures
            r@ == self@,
    {
        Attribute { file: self.file.clone(), key: self.key.clone(), value: self.value.clone() }
    }
}

/// The views of a list of edges.
pub open spec fn edges_view(v: Seq<Edge>) -> Seq<EdgeView> {
    v.map_values(|e: Edge| e@)
}

/// The views of a list of regions.
pub open spec fn regions_view(v: Seq<Region>) -> Seq<RegionView> {
    v.map_values(|r: Region| r@)
}

/// The views of a list of attributes.
pub open spec fn attributes_view(v: Seq<Attribute>) -> Seq<AttributeView> {
    v.map_values(|a: Attribute| a@)
}

// ---------------------------------------------------------------------------
// Discovery types.

/// A root directory: a directory containing a `quine.yaml`.
#[derive(Debug)]
pub struct Root {
    pub path: NodePath,
    pub name: String,
    pub refs: Vec<NodePath>,
}

/// What a root holds, as plain values.
pub struct RootView {
    pub path: Seq<char>,
    pub name: Seq<char>,
    pub refs: Seq<Seq<char>>,
}

impl View for Root {
    type V = RootView;

    open spec fn view(&self) -> RootView {
        RootView { path: self.path@, name: self.name@, refs: paths_view(self.refs@) }
    }
}

impl Clone for Root {
    fn clone(&self) -> (r: Self)
        ensures
            r@ == self@,
    {
        Root { path: self.path.clone(), name: self.name.clone(), refs: clone_paths(&self.refs) }
    }
}

/// A copy of the paths.
pub fn clone_paths(v: &Vec<NodePath>) -> (r: Vec<NodePath>)
    ensures
        paths_view(r@) == paths_view(v@),
{
    let mut r: Vec<NodePath> = Vec::new();
    let mut i: usize = 0;
    while i < v.len()
        invariant
            i <= v@.len(),
            paths_view(r@) == paths_view(v@).take(i as int),
        decreases v@.len() - i,
    {
        let ghost before = r@;
        r.push(v[i].clone());
        proof {
            assert(paths_view(r@) =~= paths_view(before).push(v@[i as int]@));
            assert(paths_view(v@).take(i + 1) =~= paths_view(v@).take(i as int).push(v@[i as int]@));
        }
        i = i + 1;
    }
    proof {
        assert(paths_view(v@).take(i as int) =~= paths_view(v@));
    }
    r
}

/// A copy of the strings.
pub fn clone_strings(v: &Vec<String>) -> (r: Vec<String>)
    ensures
        strings_view(r@) == strings_view(v@),
{
    let mut r: Vec<String> = Vec::new();
    let mut i: usize = 0;
    while i < v.len()
        invariant
            i <= v@.len(),
            strings_view(r@) == strings_view(v@).take(i as int),
        decreases v@.len() - i,
    {
        let ghost before = r@;
        r.push(v[i].clone());
        proof {
            assert(strings_view(r@) =~= strings_view(before).push(v@[i as int]@));
            assert(strings_view(v@).take(i + 1) =~= strings_view(v@).take(i as int).push(v@[i as int]@));
        }
        i = i + 1;
    }
    proof {
        assert(strings_view(v@).take(i as int) =~= strings_view(v@));
    }
    r
}

/// The views of a sequence of roots.
pub open spec fn roots_view(v: Seq<Root>) -> Seq<RootView> {
    v.map_values(|r: Root| r@)
}

/// The views of a sequence of strings.
pub open spec fn strings_view(v: Seq<String>) -> Seq<Seq<char>> {
    v.map_values(|s: String| s@)
}

/// A file discovered during the phase-one walk. The modification time,
/// seconds since the epoch as an `f64`, is held as its IEEE-754 bit pattern.
#[derive(Debug)]
pub struct WalkedFile {
    pub path: NodePath,
    pub hash: String,
    pub size: u64,
    pub modified_bits: u64,
    pub root: NodePath,
}

/// What a walked file holds, as plain values.
pub struct WalkedFileView {
    pub path: Seq<char>,
    pub hash: Seq<char>,
    pub size: u64,
    pub modified_bits: u64,
    pub root: Seq<char>,
}

impl View for WalkedFile {
    type V = WalkedFileView;

    open spec fn view(&self) -> WalkedFileView {
        WalkedFileView {
            path: self.path@,
            hash: self.hash@,
            size: self.size,
            modified_bits: self.modified_bits,
            root: self.root@,
        }
    }
}

impl Clone for WalkedFile {
    fn clone(&self) -> (r: Self)
        ensures
            r@ == self@,
    {
        WalkedFile {
            path: self.path.clone(),
            hash: self.hash.clone(),
            size: self.size,
            modified_bits: self.modified_bits,
            root: self.root.clone(),
        }
    }
}

/// The views of a sequence of walked files.
pub open spec fn files_view(v: Seq<WalkedFile>) -> Seq<WalkedFileView> {
    v.map_values(|f: WalkedFile| f@)
}

/// The views of a sequence of node paths.
pub open spec fn paths_view(v: Seq<NodePath>) -> Seq<Seq<char>> {
    v.map_values(|p: NodePath| p@)
}

/// Output of phase-two extraction for a single file.
#[derive(Debug, Clone, Default)]
pub struct Extracted {
    pub edges: Vec<Edge>,
    pub regions: Vec<Region>,
    pub attributes: Vec<Attribute>,
}

/// Diff between the previous DB state and the current walk.
#[derive(Debug)]
pub struct WalkDiff {
    pub added: Vec<WalkedFile>,
    pub removed: Vec<NodePath>,
    /// Hash differs from the DB.
    pub changed: Vec<WalkedFile>,
    pub unchanged: Vec<NodePath>,
}

/// What a diff holds, as plain values.
pub struct WalkDiffView {
    pub added: Seq<WalkedFileView>,
    pub removed: Seq<Seq<char>>,
    pub changed: Seq<WalkedFileView>,
    pub unchanged: Seq<Seq<char>>,
}

impl View for WalkDiff {
    type V = WalkDiffView;

    open spec fn view(&self) -> WalkDiffView {
        WalkDiffView {
            added: files_view(self.added@),
            removed: paths_view(self.removed@),
            changed: files_view(self.changed@),
            unchanged: paths_view(self.unchanged@),
        }
    }
}

/// The definition file (`quine.yaml`) structure.
#[derive(Debug, Clone)]
pub struct DefinitionFile {
    pub name: String,
    pub refs: Vec<RefEntry>,
    pub exclude: Vec<String>,
}

/// A ref entry in `quine.yaml`.
#[derive(Debug, Clone)]
pub struct RefEntry {
    pub path: String,
}

/// What a definition file holds, as plain values: the root's name, the
/// paths its refs name, and the directory names it excludes.
pub struct DefinitionView {
    pub name: Seq<char>,
    pub refs: Seq<Seq<char>>,
    pub exclude: Seq<Seq<char>>,
}

impl View for DefinitionFile {
    type V = DefinitionView;

    open spec fn view(&self) -> DefinitionView {
        DefinitionView {
            name: self.name@,
            refs: self.refs@.map_values(|r: RefEntry| r.path@),
            exclude: strings_view(self.exclude@),
        }
    }
}

} // verus!
