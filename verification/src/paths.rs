//! The path model behind `NodePath`: Unix path components, the lexical
//! cleaning of `.` and `..`, and the string a list of components makes.
//!
//! The specifications follow `std::path` on Unix: a leading `/` is the root,
//! empty segments and `.` segments vanish (a leading `.` of a relative path
//! stays as the current directory), `..` is the parent directory.

use vstd::prelude::*;

verus! {

/// A path component.
pub enum Comp {
    Root,
    Cur,
    Parent,
    Normal(Seq<char>),
}

/// The index of the first `'/'` in `s`, or `s.len()` when there is none.
pub open spec fn first_slash(s: Seq<char>) -> nat
    decreases s.len(),
{
    if s.len() == 0 {
        0
    } else if s[0] == '/' {
        0
    } else {
        1 + first_slash(s.drop_first())
    }
}

/// The component a segment between separators makes, if any.
pub open spec fn seg_comp(g: Seq<char>, first: bool) -> Seq<Comp> {
    if g.len() == 0 {
        seq![]
    } else if g == seq!['.'] {
        if first {
            seq![Comp::Cur]
        } else {
            seq![]
        }
    } else if g == seq!['.', '.'] {
        seq![Comp::Parent]
    } else {
        seq![Comp::Normal(g)]
    }
}

/// The components of the `'/'`-separated segments of `s`; `first` tells
/// whether the first segment starts a relative path.
pub open spec fn seg_comps(s: Seq<char>, first: bool) -> Seq<Comp>
    decreases s.len(),
{
    let k = first_slash(s) as int;
    if k >= s.len() {
        seg_comp(s, first)
    } else {
        seg_comp(s.take(k), first) + seg_comps(s.skip(k + 1), false)
    }
}

/// `Path::components` on Unix.
pub open spec fn components(s: Seq<char>) -> Seq<Comp> {
    if s.len() > 0 && s[0] == '/' {
        seq![Comp::Root] + seg_comps(s.skip(1), false)
    } else {
        seg_comps(s, true)
    }
}

/// `Path::is_absolute` on Unix.
pub open spec fn is_absolute(s: Seq<char>) -> bool {
    s.len() > 0 && s[0] == '/'
}

/// One step of cleaning: `..` drops the last kept component unless that is
/// the root (the parent of the root is the root), `.` is dropped, anything
/// else is kept.
pub open spec fn clean_step(st: Seq<Comp>, c: Comp) -> Seq<Comp> {
    match c {
        Comp::Parent => if st.len() > 0 && !(st.last() is Root) {
            st.drop_last()
        } else {
            st
        },
        Comp::Cur => st,
        _ => st.push(c),
    }
}

/// The components kept when `.` and `..` are resolved without touching the
/// file system.
pub open spec fn clean_comps(cs: Seq<Comp>) -> Seq<Comp>
    decreases cs.len(),
{
    if cs.len() == 0 {
        seq![]
    } else {
        clean_step(clean_comps(cs.drop_last()), cs.last())
    }
}

/// `PathBuf::push` of one component onto the path `r`.
pub open spec fn push_comp(r: Seq<char>, c: Comp) -> Seq<char> {
    let text = match c {
        Comp::Root => seq!['/'],
        Comp::Cur => seq!['.'],
        Comp::Parent => seq!['.', '.'],
        Comp::Normal(g) => g,
    };
    match c {
        Comp::Root => seq!['/'],
        _ => if r.len() > 0 && r.last() != '/' {
            r + seq!['/'] + text
        } else {
            r + text
        },
    }
}

/// The path a list of components makes (`PathBuf::from_iter`).
pub open spec fn render(cs: Seq<Comp>) -> Seq<char>
    decreases cs.len(),
{
    if cs.len() == 0 {
        seq![]
    } else {
        push_comp(render(cs.drop_last()), cs.last())
    }
}

/// Cleaning resolves every `.` and `..`: no kept component is either.
pub proof fn law_clean_resolves_dots(cs: Seq<Comp>)
    ensures
        forall|i: int|
            0 <= i < clean_comps(cs).len() ==> !(#[trigger] clean_comps(cs)[i] is Cur)
                && !(clean_comps(cs)[i] is Parent),
    decreases cs.len(),
{
    if cs.len() > 0 {
        law_clean_resolves_dots(cs.drop_last());
        let st = clean_comps(cs.drop_last());
        assert forall|i: int| 0 <= i < clean_comps(cs).len() implies !(#[trigger] clean_comps(cs)[i] is Cur)
            && !(clean_comps(cs)[i] is Parent) by {
            if i < st.len() {
                assert(clean_comps(cs)[i] == st[i]);
            }
        }
    }
}

/// A path made of components that begin with the root is absolute.
pub proof fn law_rooted_render_is_absolute(cs: Seq<Comp>)
    requires
        cs.len() > 0,
        cs[0] is Root,
    ensures
        is_absolute(render(cs)),
    decreases cs.len(),
{
    if cs.len() > 1 {
        law_rooted_render_is_absolute(cs.drop_last());
        let r = render(cs.drop_last());
        match cs.last() {
            Comp::Root => {},
            _ => {
                assert(r.len() > 0 && r[0] == '/');
            },
        }
    }
}

/// The cleaned form of a path.
pub open spec fn clean(s: Seq<char>) -> Seq<char> {
    render(clean_comps(components(s)))
}

/// `PathBuf::join(child)`: an absolute child replaces the path; otherwise a
/// separator is added unless the path is empty or already ends with one.
pub open spec fn join(s: Seq<char>, child: Seq<char>) -> Seq<char> {
    if is_absolute(child) {
        child
    } else if s.len() > 0 && s.last() != '/' {
        s + seq!['/'] + child
    } else {
        s + child
    }
}

/// The first component is the home-directory marker `~`.
pub open spec fn starts_with_tilde(s: Seq<char>) -> bool {
    components(s).len() > 0 && components(s)[0] == Comp::Normal(seq!['~'])
}

/// `Path::starts_with`: the components of `prefix` begin those of `s`.
pub open spec fn path_starts_with(s: Seq<char>, prefix: Seq<char>) -> bool {
    let a = components(s);
    let b = components(prefix);
    b.len() <= a.len() && a.take(b.len() as int) == b
}

// ---------------------------------------------------------------------------
// Laws of the path model

/// A name that makes exactly one component: not empty, without `/`, and
/// neither `.` nor `..` (what a directory listing gives).
pub open spec fn plain_name(g: Seq<char>) -> bool {
    &&& g.len() > 0
    &&& forall|i: int| 0 <= i < g.len() ==> #[trigger] g[i] != '/'
    &&& g != seq!['.']
    &&& g != seq!['.', '.']
}

/// A cleaned list of components: the root only in front, then plain names.
pub open spec fn clean_list(cs: Seq<Comp>) -> bool {
    forall|i: int|
        0 <= i < cs.len() ==> match #[trigger] cs[i] {
            Comp::Root => i == 0,
            Comp::Normal(g) => plain_name(g),
            _ => false,
        }
}

/// The shape of what `components` gives: the root and `.` only in front,
/// plain names otherwise, and `..`.
pub open spec fn comp_shape(cs: Seq<Comp>) -> bool {
    forall|i: int|
        0 <= i < cs.len() ==> match #[trigger] cs[i] {
            Comp::Root => i == 0,
            Comp::Cur => i == 0,
            Comp::Normal(g) => plain_name(g),
            Comp::Parent => true,
        }
}

/// A path whose components are a cleaned list starting at the root.
pub open spec fn rooted(p: Seq<char>) -> bool {
    &&& clean_list(components(p))
    &&& components(p).len() > 0
    &&& components(p)[0] is Root
}

proof fn lemma_first_slash(s: Seq<char>)
    ensures
        first_slash(s) <= s.len(),
        forall|i: int| 0 <= i < first_slash(s) ==> #[trigger] s[i] != '/',
        first_slash(s) < s.len() ==> s[first_slash(s) as int] == '/',
    decreases s.len(),
{
    if s.len() > 0 && s[0] != '/' {
        let u = s.drop_first();
        lemma_first_slash(u);
        assert forall|i: int| 0 <= i < first_slash(s) implies #[trigger] s[i] != '/' by {
            if i > 0 {
                assert(s[i] == u[i - 1]);
            }
        }
    }
}

/// The segments of `x`, a `/`, and `g` are those of `x` followed by those
/// of `g`.
proof fn lemma_seg_comps_slash(x: Seq<char>, g: Seq<char>, f: bool)
    ensures
        seg_comps(x + seq!['/'] + g, f) == seg_comps(x, f) + seg_comps(g, false),
    decreases x.len(),
{
    let s = x + seq!['/'] + g;
    lemma_first_slash(x);
    let k = first_slash(x) as int;
    if k >= x.len() {
        assert forall|i: int| 0 <= i < x.len() implies #[trigger] s[i] != '/' by {
            assert(s[i] == x[i]);
        }
        lemma_first_slash_at(s, x.len() as int);
        assert(s.take(x.len() as int) =~= x);
        assert(s.skip(x.len() as int + 1) =~= g);
    } else {
        assert forall|i: int| 0 <= i < k implies #[trigger] s[i] != '/' by {
            assert(s[i] == x[i]);
        }
        assert(s[k] == x[k]);
        lemma_first_slash_at(s, k);
        assert(s.take(k) =~= x.take(k));
        assert(s.skip(k + 1) =~= x.skip(k + 1) + seq!['/'] + g);
        lemma_seg_comps_slash(x.skip(k + 1), g, false);
        assert(seg_comps(s, f) =~= seg_comps(x, f) + seg_comps(g, false));
    }
}

/// A plain name is one component.
proof fn lemma_plain_seg(g: Seq<char>, f: bool)
    requires
        plain_name(g),
    ensures
        seg_comps(g, f) == seq![Comp::Normal(g)],
{
    lemma_first_slash_at(g, g.len() as int);
}

/// Joining a plain name onto a path adds one component.
pub proof fn lemma_join_components(d: Seq<char>, n: Seq<char>)
    requires
        d.len() > 0,
        plain_name(n),
    ensures
        components(join(d, n)) == components(d).push(Comp::Normal(n)),
{
    lemma_plain_seg(n, false);
    assert(!is_absolute(n));
    if d.last() != '/' {
        let s = d + seq!['/'] + n;
        assert(join(d, n) == s);
        if d[0] == '/' {
            assert(s.skip(1) =~= d.skip(1) + seq!['/'] + n);
            lemma_seg_comps_slash(d.skip(1), n, false);
            assert(components(s) =~= components(d).push(Comp::Normal(n)));
        } else {
            lemma_seg_comps_slash(d, n, true);
            assert(components(s) =~= components(d).push(Comp::Normal(n)));
        }
    } else {
        let y = d.drop_last();
        let s = d + n;
        assert(join(d, n) == s);
        if y.len() == 0 {
            assert(d =~= seq!['/']);
            assert(s.skip(1) =~= n);
            assert(d.skip(1) =~= Seq::<char>::empty());
            assert(components(d) =~= seq![Comp::Root]);
            assert(components(s) =~= components(d).push(Comp::Normal(n)));
        } else if d[0] == '/' {
            assert(s.skip(1) =~= y.skip(1) + seq!['/'] + n);
            assert(d.skip(1) =~= y.skip(1) + seq!['/'] + Seq::<char>::empty());
            lemma_seg_comps_slash(y.skip(1), n, false);
            lemma_seg_comps_slash(y.skip(1), Seq::<char>::empty(), false);
            assert(components(s) =~= components(d).push(Comp::Normal(n)));
        } else {
            assert(s =~= y + seq!['/'] + n);
            assert(d =~= y + seq!['/'] + Seq::<char>::empty());
            lemma_seg_comps_slash(y, n, true);
            lemma_seg_comps_slash(y, Seq::<char>::empty(), true);
            assert(components(s) =~= components(d).push(Comp::Normal(n)));
        }
    }
}

/// The text of a cleaned list: empty only for no components, ending in
/// `/` only for the root alone, starting with `/` exactly when the list
/// starts at the root.
proof fn lemma_render_shape(cs: Seq<Comp>)
    requires
        clean_list(cs),
    ensures
        render(cs).len() == 0 <==> cs.len() == 0,
        cs.len() > 0 ==> (render(cs).last() == '/' <==> cs =~= seq![Comp::Root]),
        cs.len() > 0 ==> (render(cs)[0] == '/' <==> cs[0] is Root),
    decreases cs.len(),
{
    if cs.len() > 0 {
        let p = cs.drop_last();
        assert(clean_list(p)) by {
            assert forall|i: int| 0 <= i < p.len() implies match #[trigger] p[i] {
                Comp::Root => i == 0,
                Comp::Normal(g) => plain_name(g),
                _ => false,
            } by {
                assert(p[i] == cs[i]);
            }
        }
        lemma_render_shape(p);
        let last = cs[cs.len() - 1];
        match last {
            Comp::Normal(g) => {
                assert(plain_name(g));
                assert(g[0] != '/' && g[g.len() - 1] != '/');
                if p.len() > 0 {
                    assert(p[0] == cs[0]);
                }
                if p.len() > 0 && !(p =~= seq![Comp::Root]) {
                    assert(render(p).last() != '/');
                }
            },
            _ => {
                assert(cs.len() - 1 == 0);
                assert(cs =~= seq![Comp::Root]);
            },
        }
    }
}

/// A cleaned list is what the components of its text are.
pub proof fn lemma_render_round_trip(cs: Seq<Comp>)
    requires
        clean_list(cs),
    ensures
        components(render(cs)) == cs,
    decreases cs.len(),
{
    if cs.len() == 0 {
        assert(components(render(cs)) =~= cs);
    } else {
        let p = cs.drop_last();
        assert(clean_list(p)) by {
            assert forall|i: int| 0 <= i < p.len() implies match #[trigger] p[i] {
                Comp::Root => i == 0,
                Comp::Normal(g) => plain_name(g),
                _ => false,
            } by {
                assert(p[i] == cs[i]);
            }
        }
        lemma_render_shape(p);
        lemma_render_round_trip(p);
        let last = cs[cs.len() - 1];
        match last {
            Comp::Normal(g) => {
                lemma_plain_seg(g, true);
                lemma_plain_seg(g, false);
                let r = render(p);
                if p.len() == 0 {
                    assert(render(cs) =~= g);
                    assert(g[0] != '/');
                } else if p =~= seq![Comp::Root] {
                    assert(r =~= seq!['/']);
                    assert(render(cs) =~= seq!['/'] + g);
                    assert(render(cs).skip(1) =~= g);
                    assert(components(render(cs)) =~= cs);
                } else {
                    assert(render(cs) == join(r, g));
                    lemma_join_components(r, g);
                    assert(components(render(cs)) =~= cs);
                }
            },
            _ => {
                assert(cs.len() - 1 == 0);
                assert(render(cs) =~= seq!['/']);
                assert(render(cs).skip(1) =~= Seq::<char>::empty());
                assert(components(render(cs)) =~= cs);
            },
        }
    }
}

/// Cleaning a cleaned list changes nothing.
pub proof fn lemma_clean_list_fixed(cs: Seq<Comp>)
    requires
        clean_list(cs),
    ensures
        clean_comps(cs) == cs,
    decreases cs.len(),
{
    if cs.len() > 0 {
        let p = cs.drop_last();
        assert(clean_list(p)) by {
            assert forall|i: int| 0 <= i < p.len() implies match #[trigger] p[i] {
                Comp::Root => i == 0,
                Comp::Normal(g) => plain_name(g),
                _ => false,
            } by {
                assert(p[i] == cs[i]);
            }
        }
        lemma_clean_list_fixed(p);
        let last = cs[cs.len() - 1];
        assert(!(last is Cur) && !(last is Parent));
        assert(clean_comps(cs) =~= cs);
    }
}

proof fn lemma_seg_comps_shape(s: Seq<char>, f: bool)
    ensures
        forall|i: int|
            0 <= i < seg_comps(s, f).len() ==> match #[trigger] seg_comps(s, f)[i] {
                Comp::Root => false,
                Comp::Cur => i == 0 && f,
                Comp::Normal(g) => plain_name(g),
                Comp::Parent => true,
            },
    decreases s.len(),
{
    lemma_first_slash(s);
    let k = first_slash(s) as int;
    let seg = if k >= s.len() {
        s
    } else {
        s.take(k)
    };
    assert forall|i: int| 0 <= i < seg.len() implies #[trigger] seg[i] != '/' by {
        if k < s.len() {
            assert(seg[i] == s[i]);
        }
    }
    if k < s.len() {
        lemma_seg_comps_shape(s.skip(k + 1), false);
        let a = seg_comp(s.take(k), f);
        let b = seg_comps(s.skip(k + 1), false);
        assert forall|i: int| 0 <= i < seg_comps(s, f).len() implies match #[trigger] seg_comps(s, f)[i] {
            Comp::Root => false,
            Comp::Cur => i == 0 && f,
            Comp::Normal(g) => plain_name(g),
            Comp::Parent => true,
        } by {
            if i >= a.len() {
                assert(seg_comps(s, f)[i] == b[i - a.len()]);
            }
        }
    }
}

/// What `components` gives has the root and `.` only in front.
pub proof fn lemma_components_shape(s: Seq<char>)
    ensures
        comp_shape(components(s)),
{
    if s.len() > 0 && s[0] == '/' {
        lemma_seg_comps_shape(s.skip(1), false);
        let b = seg_comps(s.skip(1), false);
        assert forall|i: int| 0 <= i < components(s).len() implies match #[trigger] components(s)[i] {
            Comp::Root => i == 0,
            Comp::Cur => i == 0,
            Comp::Normal(g) => plain_name(g),
            Comp::Parent => true,
        } by {
            if i > 0 {
                assert(components(s)[i] == b[i - 1]);
            }
        }
    } else {
        lemma_seg_comps_shape(s, true);
    }
}

/// Cleaning components of that shape gives a cleaned list.
pub proof fn lemma_clean_is_clean_list(cs: Seq<Comp>)
    requires
        comp_shape(cs),
    ensures
        clean_list(clean_comps(cs)),
    decreases cs.len(),
{
    if cs.len() > 0 {
        let p = cs.drop_last();
        assert(comp_shape(p)) by {
            assert forall|i: int| 0 <= i < p.len() implies match #[trigger] p[i] {
                Comp::Root => i == 0,
                Comp::Cur => i == 0,
                Comp::Normal(g) => plain_name(g),
                Comp::Parent => true,
            } by {
                assert(p[i] == cs[i]);
            }
        }
        lemma_clean_is_clean_list(p);
        let st = clean_comps(p);
        let last = cs[cs.len() - 1];
        let r = clean_comps(cs);
        match last {
            Comp::Root => {
                assert(p.len() == 0);
                assert(r =~= seq![Comp::Root]);
            },
            Comp::Normal(g) => {
                assert forall|i: int| 0 <= i < r.len() implies match #[trigger] r[i] {
                    Comp::Root => i == 0,
                    Comp::Normal(g) => plain_name(g),
                    _ => false,
                } by {
                    if i < st.len() {
                        assert(r[i] == st[i]);
                    }
                }
            },
            _ => {
                assert forall|i: int| 0 <= i < r.len() implies match #[trigger] r[i] {
                    Comp::Root => i == 0,
                    Comp::Normal(g) => plain_name(g),
                    _ => false,
                } by {
                    assert(r[i] == st[i]);
                }
            },
        }
    }
}

/// Cleaning keeps a leading root in front.
pub proof fn lemma_clean_keeps_root(cs: Seq<Comp>)
    requires
        cs.len() > 0,
        cs[0] is Root,
    ensures
        clean_comps(cs).len() > 0,
        clean_comps(cs)[0] is Root,
    decreases cs.len(),
{
    if cs.len() > 1 {
        let p = cs.drop_last();
        lemma_clean_keeps_root(p);
        let st = clean_comps(p);
        let r = clean_comps(cs);
        if st.len() == 1 {
            assert(st.last() is Root);
        }
        assert(r.len() > 0 && r[0] == st[0]);
    } else {
        assert(clean_comps(cs.drop_last()) =~= Seq::<Comp>::empty());
        assert(clean_comps(cs) =~= seq![Comp::Root]);
    }
}

/// `path_starts_with` is transitive.
pub proof fn lemma_starts_with_trans(a: Seq<char>, b: Seq<char>, c: Seq<char>)
    requires
        path_starts_with(a, b),
        path_starts_with(b, c),
    ensures
        path_starts_with(a, c),
{
    let ca = components(a);
    let cb = components(b);
    let cc = components(c);
    assert(ca.take(cc.len() as int) =~= cb.take(cc.len() as int));
}

/// The entry `n` of a rooted directory `d` is rooted and lies under `d`:
/// cleaning the joined path adds exactly the one component.
pub proof fn lemma_rooted_entry(d: Seq<char>, n: Seq<char>)
    requires
        rooted(d),
        plain_name(n),
    ensures
        is_absolute(join(d, n)),
        components(join(d, n)) == components(d).push(Comp::Normal(n)),
        clean_comps(components(join(d, n))) == components(d).push(Comp::Normal(n)),
        rooted(render(components(d).push(Comp::Normal(n)))),
        components(render(components(d).push(Comp::Normal(n)))) == components(d).push(
            Comp::Normal(n),
        ),
        path_starts_with(render(components(d).push(Comp::Normal(n))), d),
{
    let cd = components(d);
    lemma_seg_comps_shape(d, true);
    if !(d.len() > 0 && d[0] == '/') {
        assert(!(cd[0] is Root));
    }
    assert(d.len() > 0 && d[0] == '/');
    lemma_join_components(d, n);
    let j = join(d, n);
    assert(j[0] == '/');
    let e = cd.push(Comp::Normal(n));
    assert(clean_comps(components(j)) =~= clean_step(clean_comps(cd), Comp::Normal(n))) by {
        assert(components(j).drop_last() =~= cd);
    }
    lemma_clean_list_fixed(cd);
    assert(clean_list(e)) by {
        assert forall|i: int| 0 <= i < e.len() implies match #[trigger] e[i] {
            Comp::Root => i == 0,
            Comp::Normal(g) => plain_name(g),
            _ => false,
        } by {
            if i < cd.len() {
                assert(e[i] == cd[i]);
            }
        }
    }
    lemma_render_round_trip(e);
    assert(e.take(cd.len() as int) =~= cd);
}

// ---------------------------------------------------------------------------
// Executable components

/// A component, its text held as a range of a character vector.
#[derive(Clone, Copy)]
pub enum PathComp {
    Root,
    Cur,
    Parent,
    Normal(usize, usize),
}

/// The component a `PathComp` stands for in the text `s`.
pub open spec fn comp_of(s: Seq<char>, c: PathComp) -> Comp {
    match c {
        PathComp::Root => Comp::Root,
        PathComp::Cur => Comp::Cur,
        PathComp::Parent => Comp::Parent,
        PathComp::Normal(a, b) => Comp::Normal(s.subrange(a as int, b as int)),
    }
}

/// The components a list of `PathComp`s stands for in `s`.
pub open spec fn comps_of(s: Seq<char>, v: Seq<PathComp>) -> Seq<Comp> {
    v.map_values(|c: PathComp| comp_of(s, c))
}

/// The ranges of a list of `PathComp`s lie in `s`.
pub open spec fn comps_within(len: nat, v: Seq<PathComp>) -> bool {
    forall|i: int|
        0 <= i < v.len() ==> match #[trigger] v[i] {
            PathComp::Normal(a, b) => a <= b <= len,
            _ => true,
        }
}

proof fn lemma_first_slash_at(s: Seq<char>, k: int)
    requires
        0 <= k <= s.len(),
        forall|i: int| 0 <= i < k ==> #[trigger] s[i] != '/',
        k == s.len() || s[k] == '/',
    ensures
        first_slash(s) == k,
    decreases k,
{
    if k > 0 {
        let u = s.drop_first();
        assert forall|i: int| 0 <= i < k - 1 implies #[trigger] u[i] != '/' by {
            assert(u[i] == s[i + 1]);
        }
        lemma_first_slash_at(u, k - 1);
    }
}

/// The component, if any, of the segment `s[a..b]`.
fn seg_comp_exec(s: &[char], a: usize, b: usize, first: bool, out: &mut Vec<PathComp>)
    requires
        a <= b <= s@.len(),
    ensures
        comps_of(s@, final(out)@) == comps_of(s@, old(out)@) + seg_comp(
            s@.subrange(a as int, b as int),
            first,
        ),
        comps_within(s@.len(), old(out)@) ==> comps_within(s@.len(), final(out)@),
{
    let ghost g = s@.subrange(a as int, b as int);
    let ghost before = comps_of(s@, out@);
    if a == b {
        proof {
            assert(g.len() == 0);
        }
    } else if b - a == 1 && s[a] == '.' {
        proof {
            assert(g =~= seq!['.']);
        }
        if first {
            out.push(PathComp::Cur);
        }
    } else if b - a == 2 && s[a] == '.' && s[a + 1] == '.' {
        proof {
            assert(g =~= seq!['.', '.']);
        }
        out.push(PathComp::Parent);
    } else {
        proof {
            if g == seq!['.'] {
                assert(g[0] == s@[a as int]);
            }
            if g == seq!['.', '.'] {
                assert(g[0] == s@[a as int]);
                assert(g[1] == s@[a + 1]);
            }
        }
        out.push(PathComp::Normal(a, b));
    }
    proof {
        assert(comps_of(s@, out@) =~= before + seg_comp(g, first));
    }
}

/// The components of the path `s`.
pub fn components_exec(s: &[char]) -> (r: Vec<PathComp>)
    ensures
        comps_of(s@, r@) == components(s@),
        comps_within(s@.len(), r@),
{
    let len = s.len();
    let mut out: Vec<PathComp> = Vec::new();
    let mut pos: usize;
    let mut first: bool;
    if len > 0 && s[0] == '/' {
        out.push(PathComp::Root);
        pos = 1;
        first = false;
    } else {
        pos = 0;
        first = true;
    }
    proof {
        if len > 0 && s@[0] == '/' {
            assert(comps_of(s@, out@) =~= seq![Comp::Root]);
        } else {
            assert(s@.skip(0) =~= s@);
            assert(comps_of(s@, out@) =~= Seq::<Comp>::empty());
        }
        assert(comps_of(s@, out@) + seg_comps(s@.skip(pos as int), first) =~= components(s@));
    }
    loop
        invariant
            len == s@.len(),
            pos <= len,
            comps_within(s@.len(), out@),
            comps_of(s@, out@) + seg_comps(s@.skip(pos as int), first) == components(s@),
        decreases len - pos,
    {
        let mut k = pos;
        while k < len && s[k] != '/'
            invariant
                pos <= k <= len == s@.len(),
                forall|i: int| pos <= i < k ==> #[trigger] s@[i] != '/',
            decreases len - k,
        {
            k = k + 1;
        }
        let ghost t = s@.skip(pos as int);
        let ghost before = comps_of(s@, out@);
        proof {
            assert forall|i: int| 0 <= i < k - pos implies #[trigger] t[i] != '/' by {
                assert(t[i] == s@[pos + i]);
            }
            lemma_first_slash_at(t, k - pos);
            assert(t.take(k - pos) =~= s@.subrange(pos as int, k as int));
        }
        seg_comp_exec(s, pos, k, first, &mut out);
        if k == len {
            proof {
                assert(t =~= s@.subrange(pos as int, k as int));
                assert(comps_of(s@, out@) =~= components(s@));
            }
            return out;
        }
        proof {
            assert(t.skip(k - pos + 1) =~= s@.skip(k + 1));
            assert(comps_of(s@, out@) + seg_comps(s@.skip(k + 1), false) =~= components(s@));
        }
        pos = k + 1;
        first = false;
    }
}

/// The components kept by cleaning.
pub fn clean_exec(s: &[char], cs: &Vec<PathComp>) -> (r: Vec<PathComp>)
    requires
        comps_within(s@.len(), cs@),
    ensures
        comps_of(s@, r@) == clean_comps(comps_of(s@, cs@)),
        comps_within(s@.len(), r@),
{
    let mut st: Vec<PathComp> = Vec::new();
    let mut i: usize = 0;
    let ghost all = comps_of(s@, cs@);
    proof {
        assert(all.take(0) =~= Seq::<Comp>::empty());
        assert(comps_of(s@, st@) =~= clean_comps(all.take(0)));
    }
    while i < cs.len()
        invariant
            all == comps_of(s@, cs@),
            comps_within(s@.len(), cs@),
            comps_within(s@.len(), st@),
            i <= cs@.len(),
            comps_of(s@, st@) == clean_comps(all.take(i as int)),
        decreases cs@.len() - i,
    {
        let c = cs[i];
        let ghost before = comps_of(s@, st@);
        proof {
            assert(all.take(i + 1).drop_last() =~= all.take(i as int));
            assert(all.take(i + 1).last() == comp_of(s@, c));
        }
        match c {
            PathComp::Parent => {
                let n = st.len();
                if n > 0 {
                    match st[n - 1] {
                        PathComp::Root => {},
                        _ => {
                            st.pop();
                        },
                    }
                }
            },
            PathComp::Cur => {},
            _ => {
                st.push(c);
            },
        }
        proof {
            assert(comps_of(s@, st@) =~= clean_step(before, comp_of(s@, c)));
        }
        i = i + 1;
    }
    proof {
        assert(all.take(i as int) =~= all);
    }
    st
}

/// The path the components make.
pub fn render_exec(s: &[char], cs: &Vec<PathComp>) -> (r: String)
    requires
        comps_within(s@.len(), cs@),
    ensures
        r@ == render(comps_of(s@, cs@)),
{
    let ghost all = comps_of(s@, cs@);
    let mut r = String::new();
    let mut empty = true;
    let mut last_slash = false;
    let mut i: usize = 0;
    proof {
        assert(all.take(0) =~= Seq::<Comp>::empty());
    }
    while i < cs.len()
        invariant
            all == comps_of(s@, cs@),
            comps_within(s@.len(), cs@),
            i <= cs@.len(),
            r@ == render(all.take(i as int)),
            empty == (r@.len() == 0),
            !empty ==> (last_slash == (r@.last() == '/')),
        decreases cs@.len() - i,
    {
        let ghost before = r@;
        proof {
            assert(all.take(i + 1).drop_last() =~= all.take(i as int));
            assert(all.take(i + 1).last() == comp_of(s@, cs@[i as int]));
        }
        match cs[i] {
            PathComp::Root => {
                r = String::new();
                r.push('/');
                proof {
                    assert(r@ =~= seq!['/']);
                }
                empty = false;
                last_slash = true;
            },
            PathComp::Cur => {
                if !empty && !last_slash {
                    r.push('/');
                }
                r.push('.');
                empty = false;
                last_slash = false;
                proof {
                    assert(r@ =~= push_comp(before, Comp::Cur));
                }
            },
            PathComp::Parent => {
                if !empty && !last_slash {
                    r.push('/');
                }
                r.push('.');
                r.push('.');
                empty = false;
                last_slash = false;
                proof {
                    assert(r@ =~= push_comp(before, Comp::Parent));
                }
            },
            PathComp::Normal(a, b) => {
                let ghost g = s@.subrange(a as int, b as int);
                let ghost mid = if !empty && !last_slash {
                    before + seq!['/']
                } else {
                    before
                };
                if !empty && !last_slash {
                    r.push('/');
                    last_slash = true;
                }
                let mut j = a;
                while j < b
                    invariant
                        a <= j <= b <= s@.len(),
                        r@ == mid + s@.subrange(a as int, j as int),
                    decreases b - j,
                {
                    r.push(s[j]);
                    proof {
                        assert(s@.subrange(a as int, j + 1) =~= s@.subrange(a as int, j as int).push(
                            s@[j as int],
                        ));
                    }
                    j = j + 1;
                }
                if a < b {
                    empty = false;
                    last_slash = s[b - 1] == '/';
                }
                proof {
                    assert(r@ =~= push_comp(before, Comp::Normal(g)));
                    if a < b {
                        assert(r@.last() == s@[b - 1]);
                    } else {
                        assert(r@ =~= mid);
                    }
                }
            },
        }
        i = i + 1;
    }
    proof {
        assert(all.take(i as int) =~= all);
    }
    r
}

} // verus!
