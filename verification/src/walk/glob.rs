//! Glob patterns for `exclude`: `*` matches any run of characters, `?` any
//! one character, and every other character itself; a pattern without
//! either is an exact name.

use vstd::prelude::*;
use crate::text::{chars_of, ends_with, starts_with};

verus! {

/// Whether the glob pattern `p` matches all of the name `s`.
pub open spec fn glob_match(p: Seq<char>, s: Seq<char>) -> bool
    decreases p.len(), s.len(),
{
    if p.len() == 0 {
        s.len() == 0
    } else if p[0] == '*' {
        glob_match(p.drop_first(), s) || (s.len() > 0 && glob_match(p, s.drop_first()))
    } else {
        s.len() > 0 && (p[0] == '?' || p[0] == s[0]) && glob_match(p.drop_first(), s.drop_first())
    }
}

/// Whether some pattern of `patterns` matches the name `s`.
pub open spec fn matches_any(patterns: Seq<Seq<char>>, s: Seq<char>) -> bool {
    exists|k: int| 0 <= k < patterns.len() && glob_match(#[trigger] patterns[k], s)
}

/// Whether the pattern `p` matches the name `s`; row by row over the
/// pattern's suffixes, from the last.
pub fn glob_matches(p: &str, s: &str) -> (r: bool)
    ensures
        r == glob_match(p@, s@),
{
    let pc = chars_of(p);
    let sc = chars_of(s);
    let plen = pc.len();
    let slen = sc.len();
    // Row for the empty pattern suffix.
    let mut next: Vec<bool> = Vec::new();
    let mut j: usize = 0;
    while j < slen
        invariant
            j <= slen,
            slen == sc@.len(),
            next@.len() == j,
            forall|k: int| 0 <= k < j ==> !next@[k],
        decreases slen - j,
    {
        next.push(false);
        j = j + 1;
    }
    next.push(true);
    proof {
        assert forall|k: int| 0 <= k <= slen implies next@[k] == glob_match(
            pc@.skip(plen as int),
            sc@.skip(k),
        ) by {
            assert(pc@.skip(plen as int).len() == 0);
        }
    }
    let mut i: usize = plen;
    while i > 0
        invariant
            i <= plen,
            plen == pc@.len(),
            slen == sc@.len(),
            next@.len() == slen + 1,
            forall|k: int| 0 <= k <= slen ==> next@[k] == glob_match(pc@.skip(i as int), sc@.skip(k)),
        decreases i,
    {
        i = i - 1;
        let c = pc[i];
        let ghost ps = pc@.skip(i as int);
        proof {
            assert(ps[0] == c);
            assert(ps.drop_first() =~= pc@.skip(i + 1));
        }
        let mut cur: Vec<bool> = Vec::new();
        let mut k: usize = 0;
        while k < slen
            invariant
                k <= slen,
                cur@.len() == k,
            decreases slen - k,
        {
            cur.push(false);
            k = k + 1;
        }
        let last = c == '*' && next[slen];
        cur.push(last);
        proof {
            assert(sc@.skip(slen as int).len() == 0);
            assert(cur@[slen as int] == glob_match(ps, sc@.skip(slen as int)));
        }
        let mut j: usize = slen;
        while j > 0
            invariant
                j <= slen,
                plen == pc@.len(),
                slen == sc@.len(),
                i < plen,
                c == pc@[i as int],
                ps == pc@.skip(i as int),
                ps[0] == c,
                ps.drop_first() == pc@.skip(i + 1),
                cur@.len() == slen + 1,
                next@.len() == slen + 1,
                forall|k: int| 0 <= k <= slen ==> next@[k] == glob_match(pc@.skip(i + 1), sc@.skip(k)),
                forall|k: int| j <= k <= slen ==> cur@[k] == glob_match(ps, sc@.skip(k)),
            decreases j,
        {
            j = j - 1;
            let ghost ss = sc@.skip(j as int);
            proof {
                assert(ss[0] == sc@[j as int]);
                assert(ss.drop_first() =~= sc@.skip(j + 1));
            }
            let v = if c == '*' {
                next[j] || cur[j + 1]
            } else {
                (c == '?' || c == sc[j]) && next[j + 1]
            };
            cur.set(j, v);
        }
        next = cur;
    }
    proof {
        assert(pc@.skip(0) =~= pc@);
        assert(sc@.skip(0) =~= sc@);
    }
    next[0]
}

/// Whether some pattern of `patterns` matches the name `s`.
pub fn glob_matches_any(patterns: &Vec<String>, s: &String) -> (r: bool)
    ensures
        r == matches_any(crate::types::strings_view(patterns@), s@),
{
    let ghost pv = crate::types::strings_view(patterns@);
    let mut i: usize = 0;
    while i < patterns.len()
        invariant
            pv == crate::types::strings_view(patterns@),
            i <= patterns@.len(),
            forall|k: int| 0 <= k < i ==> !glob_match(#[trigger] pv[k], s@),
        decreases patterns@.len() - i,
    {
        if glob_matches(patterns[i].as_str(), s.as_str()) {
            proof {
                assert(glob_match(pv[i as int], s@));
            }
            return true;
        }
        i = i + 1;
    }
    false
}

/// `p` holds no wildcard.
pub open spec fn literal(p: Seq<char>) -> bool {
    forall|i: int| 0 <= i < p.len() ==> #[trigger] p[i] != '*' && p[i] != '?'
}

/// A pattern without `*` or `?` is an exact name: it matches a name exactly
/// when the name is the pattern.
pub proof fn law_glob_literal(p: Seq<char>, s: Seq<char>)
    requires
        literal(p),
    ensures
        glob_match(p, s) <==> p == s,
    decreases p.len(),
{
    if p.len() > 0 {
        assert(literal(p.drop_first())) by {
            assert forall|i: int| 0 <= i < p.drop_first().len() implies #[trigger] p.drop_first()[i] != '*'
                && p.drop_first()[i] != '?' by {
                assert(p.drop_first()[i] == p[i + 1]);
            }
        }
        assert(p[0] != '*' && p[0] != '?');
        if s.len() > 0 {
            law_glob_literal(p.drop_first(), s.drop_first());
            if p == s {
                assert(p.drop_first() == s.drop_first());
            }
            if p[0] == s[0] && p.drop_first() == s.drop_first() {
                assert forall|i: int| 0 <= i < p.len() implies p[i] == s[i] by {
                    if i > 0 {
                        assert(p.drop_first()[i - 1] == s.drop_first()[i - 1]);
                    }
                }
                assert(p =~= s);
            }
        }
    } else {
        if s.len() == 0 {
            assert(p =~= s);
        }
    }
}

/// `*` matches every name, the empty one included.
pub proof fn law_glob_star_matches_all(s: Seq<char>)
    ensures
        glob_match(seq!['*'], s),
    decreases s.len(),
{
    let p = seq!['*'];
    assert(p[0] == '*');
    assert(p.drop_first() =~= Seq::<char>::empty());
    assert(glob_match(p, s) == (glob_match(p.drop_first(), s) || (s.len() > 0 && glob_match(
        p,
        s.drop_first(),
    ))));
    if s.len() > 0 {
        law_glob_star_matches_all(s.drop_first());
    } else {
        assert(glob_match(p.drop_first(), s));
    }
}

/// `*t`, with `t` free of wildcards, matches exactly the names that end
/// with `t`: `*.db` matches `quine.db` and not `quine.dbx`.
pub proof fn law_glob_star_suffix(t: Seq<char>, s: Seq<char>)
    requires
        literal(t),
    ensures
        glob_match(seq!['*'] + t, s) <==> ends_with(s, t),
    decreases s.len(),
{
    let p = seq!['*'] + t;
    assert(p[0] == '*');
    assert(p.drop_first() =~= t);
    assert(glob_match(p, s) == (glob_match(p.drop_first(), s) || (s.len() > 0 && glob_match(
        p,
        s.drop_first(),
    ))));
    law_glob_literal(t, s);
    if s.len() > 0 {
        law_glob_star_suffix(t, s.drop_first());
        let d = s.drop_first();
        if t.len() <= d.len() {
            assert(s.skip(s.len() - t.len()) =~= d.skip(d.len() - t.len()));
        }
        if ends_with(s, t) && t.len() == s.len() {
            assert(s.skip(0) =~= s);
        }
        if t == s {
            assert(s.skip(0) =~= s);
        }
        assert(glob_match(p, s) <==> (t == s || ends_with(d, t)));
        if ends_with(s, t) {
            if t.len() == s.len() {
                assert(s.skip(0) =~= s);
                assert(t == s);
            } else {
                assert(ends_with(d, t));
            }
        }
        if ends_with(d, t) {
            assert(ends_with(s, t));
        }
    } else {
        if ends_with(s, t) {
            assert(t.len() == 0);
            assert(t =~= s);
        }
        if t == s {
            assert(s.skip(0) =~= t);
        }
    }
}

/// `t*`, with `t` free of wildcards, matches exactly the names that start
/// with `t`: `tmp*` matches `tmp1` and `tmp`, not `xtmp`.
pub proof fn law_glob_prefix_star(t: Seq<char>, s: Seq<char>)
    requires
        literal(t),
    ensures
        glob_match(t + seq!['*'], s) <==> starts_with(s, t),
    decreases t.len(),
{
    let p = t + seq!['*'];
    if t.len() == 0 {
        assert(p =~= seq!['*']);
        law_glob_star_matches_all(s);
        assert(s.take(0) =~= t);
    } else {
        assert(p[0] == t[0]);
        assert(p.drop_first() =~= t.drop_first() + seq!['*']);
        assert(t[0] != '*' && t[0] != '?');
        assert(literal(t.drop_first())) by {
            assert forall|i: int| 0 <= i < t.drop_first().len() implies #[trigger] t.drop_first()[i] != '*'
                && t.drop_first()[i] != '?' by {
                assert(t.drop_first()[i] == t[i + 1]);
            }
        }
        if s.len() > 0 {
            law_glob_prefix_star(t.drop_first(), s.drop_first());
            if starts_with(s, t) {
                assert(s.take(t.len() as int)[0] == s[0]);
                assert(s.drop_first().take(t.len() - 1) =~= t.drop_first()) by {
                    assert forall|i: int| 0 <= i < t.len() - 1 implies s.drop_first().take(t.len() - 1)[i]
                        == t.drop_first()[i] by {
                        assert(s.take(t.len() as int)[i + 1] == t[i + 1]);
                    }
                }
            }
            if s[0] == t[0] && starts_with(s.drop_first(), t.drop_first()) {
                assert forall|i: int| 0 <= i < t.len() implies s.take(t.len() as int)[i] == t[i] by {
                    if i > 0 {
                        assert(s.drop_first().take(t.len() - 1)[i - 1] == t.drop_first()[i - 1]);
                    }
                }
                assert(s.take(t.len() as int) =~= t);
            }
        }
    }
}

} // verus!
