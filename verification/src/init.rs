//! What `quine init` writes: a `quine.yaml` naming the new root.

use vstd::prelude::*;
use vstd::string::StringExecFns;
use crate::paths::{
    Comp, PathComp, comp_of, components, components_exec, comps_of, comps_within, lemma_rooted_entry,
    plain_name, render, rooted,
};
use crate::text::{chars_of, string_lit, string_of};
use crate::types::NodePath;

verus! {

/// `Path::file_name`: the last component when it is a name.
pub open spec fn file_name(s: Seq<char>) -> Option<Seq<char>> {
    let cs = components(s);
    if cs.len() > 0 {
        match cs.last() {
            Comp::Normal(n) => Some(n),
            _ => None,
        }
    } else {
        None
    }
}

/// The name a root gets when none is given: the directory's own name, or
/// `unnamed` when the path has none.
pub open spec fn default_name(dir: Seq<char>) -> Seq<char> {
    match file_name(dir) {
        Some(n) => n,
        None => "unnamed"@,
    }
}

/// A directory's default name is its last component when that is a name,
/// and `unnamed` when its path ends in no name (`/`, `..`).
pub proof fn law_default_name_is_last_component(dir: Seq<char>)
    ensures
        components(dir).len() > 0 && components(dir).last() is Normal ==> default_name(dir)
            == components(dir).last()->Normal_0,
        !(components(dir).len() > 0 && components(dir).last() is Normal) ==> default_name(dir)
            == "unnamed"@,
{
}

/// The default name of a directory's entry `n` is `n`: naming a new root
/// after the directory it is made in gives that directory's own name, not
/// that of a directory above it.
pub proof fn law_default_name_of_entry(d: Seq<char>, n: Seq<char>)
    requires
        rooted(d),
        plain_name(n),
    ensures
        default_name(render(components(d).push(Comp::Normal(n)))) == n,
{
    lemma_rooted_entry(d, n);
}

/// The name a new root gets when none is given.
pub fn default_root_name(dir: &NodePath) -> (r: String)
    ensures
        r@ == default_name(dir@),
{
    let s = chars_of(dir.as_str());
    let cs = components_exec(s.as_slice());
    let n = cs.len();
    if n > 0 {
        proof {
            assert(comps_of(s@, cs@)[n - 1] == comp_of(s@, cs@[n - 1]));
            assert(comps_within(s@.len(), cs@));
        }
        match cs[n - 1] {
            PathComp::Normal(a, b) => {
                proof {
                    assert(cs@[n - 1] matches PathComp::Normal(x, y) && x <= y <= s@.len());
                }
                return string_of(s.as_slice(), a, b);
            },
            _ => {},
        }
    }
    string_lit("unnamed")
}

/// The text of a new root's definition file.
pub open spec fn definition_text(name: Seq<char>) -> Seq<char> {
    "name: \""@ + name + "\"\nrefs: []\n"@
}

/// Write a new root's definition file.
pub fn definition_file_text(name: &str) -> (r: String)
    ensures
        r@ == definition_text(name@),
{
    let mut t = string_lit("name: \"");
    t.append(name);
    t.append("\"\nrefs: []\n");
    t
}

} // verus!
