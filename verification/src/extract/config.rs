//! Extractor definitions: the comment syntax of each file format.
//!
//! The extraction engine is one piece of code and these definitions
//! parameterize it: adding a language means adding a definition, not new
//! extraction code.

use vstd::prelude::*;
use crate::text::{
    chars_of, ends_with, lemma_find_from, string_lit, trim_start_char, trim_start_char_range,
};

verus! {

/// How to parse a file format: its name, the file patterns (`*.ext`) it
/// claims, its line-comment prefix, its block-comment delimiters, and
/// whether the whole text (not only comments) is scanned for links.
#[derive(Debug, Clone)]
pub struct ExtractorDef {
    pub name: String,
    pub patterns: Vec<String>,
    pub line_comment: Option<String>,
    pub block_comment: Option<(String, String)>,
    pub freetext: bool,
}

/// What an extractor definition is, as values.
pub struct DefView {
    pub name: Seq<char>,
    pub patterns: Seq<Seq<char>>,
    pub line_comment: Option<Seq<char>>,
    pub block_comment: Option<(Seq<char>, Seq<char>)>,
    pub freetext: bool,
}

/// The characters of a list of strings.
pub open spec fn strings_view(v: Seq<String>) -> Seq<Seq<char>> {
    v.map_values(|s: String| s@)
}

impl View for ExtractorDef {
    type V = DefView;

    open spec fn view(&self) -> DefView {
        DefView {
            name: self.name@,
            patterns: strings_view(self.patterns@),
            line_comment: match self.line_comment {
                Some(s) => Some(s@),
                None => None,
            },
            block_comment: match self.block_comment {
                Some((o, c)) => Some((o@, c@)),
                None => None,
            },
            freetext: self.freetext,
        }
    }
}

/// The views of a list of definitions.
pub open spec fn defs_view(v: Seq<ExtractorDef>) -> Seq<DefView> {
    v.map_values(|d: ExtractorDef| d@)
}

/// A definition with line comments `line` and block comments `block`.
pub open spec fn code_def(
    name: Seq<char>,
    patterns: Seq<Seq<char>>,
    line: Seq<char>,
    block: Option<(Seq<char>, Seq<char>)>,
) -> DefView {
    DefView { name, patterns, line_comment: Some(line), block_comment: block, freetext: false }
}

/// The built-in definitions, in the order they are tried.
pub open spec fn builtin_defs() -> Seq<DefView> {
    let c_block = Some(("/*"@, "*/"@));
    seq![
        DefView {
            name: "markdown"@,
            patterns: seq!["*.md"@],
            line_comment: None,
            block_comment: None,
            freetext: true,
        },
        code_def(
            "c_family"@,
            seq!["*.c"@, "*.h"@, "*.cpp"@, "*.hpp"@, "*.cc"@, "*.hh"@],
            "//"@,
            c_block,
        ),
        code_def("rust"@, seq!["*.rs"@], "//"@, c_block),
        code_def("python"@, seq!["*.py"@], "#"@, None),
        code_def("supercollider"@, seq!["*.scd"@, "*.sc"@], "//"@, c_block),
        code_def("shell"@, seq!["*.sh"@, "*.bash"@, "*.zsh"@], "#"@, None),
        code_def("yaml"@, seq!["*.yaml"@, "*.yml"@], "#"@, None),
        code_def("lua"@, seq!["*.lua"@], "--"@, Some(("--[["@, "]]"@))),
        code_def("javascript"@, seq!["*.js"@, "*.ts"@, "*.jsx"@, "*.tsx"@], "//"@, c_block),
    ]
}

fn strings(v: Vec<&str>) -> (r: Vec<String>)
    ensures
        strings_view(r@) == v@.map_values(|s: &str| s@),
{
    let mut r: Vec<String> = Vec::new();
    let mut i: usize = 0;
    while i < v.len()
        invariant
            i <= v@.len(),
            strings_view(r@) == v@.take(i as int).map_values(|s: &str| s@),
        decreases v@.len() - i,
    {
        let ghost before = r@;
        let t = string_lit(v[i]);
        r.push(t);
        proof {
            assert(strings_view(r@) =~= strings_view(before).push(v@[i as int]@));
            assert(v@.take(i + 1) =~= v@.take(i as int).push(v@[i as int]));
            assert(strings_view(r@) =~= v@.take(i + 1).map_values(|s: &str| s@));
        }
        i = i + 1;
    }
    proof {
        assert(v@.take(i as int) =~= v@);
    }
    r
}

fn code(name: &str, patterns: Vec<&str>, line: &str, block: Option<(&str, &str)>) -> (r: ExtractorDef)
    ensures
        r@ == code_def(
            name@,
            patterns@.map_values(|s: &str| s@),
            line@,
            match block {
                Some((o, c)) => Some((o@, c@)),
                None => None,
            },
        ),
{
    ExtractorDef {
        name: string_lit(name),
        patterns: strings(patterns),
        line_comment: Some(string_lit(line)),
        block_comment: match block {
            Some((o, c)) => Some((string_lit(o), string_lit(c))),
            None => None,
        },
        freetext: false,
    }
}

/// The built-in extractor definitions: markdown (freetext), the C family,
/// Rust, Python, SuperCollider, shell, YAML, Lua and JavaScript.
pub fn builtin_extractors() -> (r: Vec<ExtractorDef>)
    ensures
        defs_view(r@) == builtin_defs(),
{
    let spec_defs = Ghost(builtin_defs());
    let markdown = ExtractorDef {
        name: string_lit("markdown"),
        patterns: strings(vec!["*.md"]),
        line_comment: None,
        block_comment: None,
        freetext: true,
    };
    proof {
        assert(markdown@.patterns =~= spec_defs@[0].patterns);
        assert(markdown@ == spec_defs@[0]);
    }
    let slashes = Some(("/*", "*/"));
    let c_family = code("c_family", vec!["*.c", "*.h", "*.cpp", "*.hpp", "*.cc", "*.hh"], "//", slashes);
    proof {
        assert(c_family@.patterns =~= spec_defs@[1].patterns);
        assert(c_family@ == spec_defs@[1]);
    }
    let rust = code("rust", vec!["*.rs"], "//", slashes);
    proof {
        assert(rust@.patterns =~= spec_defs@[2].patterns);
        assert(rust@ == spec_defs@[2]);
    }
    let python = code("python", vec!["*.py"], "#", None);
    proof {
        assert(python@.patterns =~= spec_defs@[3].patterns);
        assert(python@ == spec_defs@[3]);
    }
    let supercollider = code("supercollider", vec!["*.scd", "*.sc"], "//", slashes);
    proof {
        assert(supercollider@.patterns =~= spec_defs@[4].patterns);
        assert(supercollider@ == spec_defs@[4]);
    }
    let shell = code("shell", vec!["*.sh", "*.bash", "*.zsh"], "#", None);
    proof {
        assert(shell@.patterns =~= spec_defs@[5].patterns);
        assert(shell@ == spec_defs@[5]);
    }
    let yaml = code("yaml", vec!["*.yaml", "*.yml"], "#", None);
    proof {
        assert(yaml@.patterns =~= spec_defs@[6].patterns);
        assert(yaml@ == spec_defs@[6]);
    }
    let lua = code("lua", vec!["*.lua"], "--", Some(("--[[", "]]")));
    proof {
        assert(lua@.patterns =~= spec_defs@[7].patterns);
        assert(lua@ == spec_defs@[7]);
    }
    let javascript = code("javascript", vec!["*.js", "*.ts", "*.jsx", "*.tsx"], "//", slashes);
    proof {
        assert(javascript@.patterns =~= spec_defs@[8].patterns);
        assert(javascript@ == spec_defs@[8]);
    }
    let r = vec![markdown, c_family, rust, python, supercollider, shell, yaml, lua, javascript];
    proof {
        assert(defs_view(r@) =~= builtin_defs());
    }
    r
}

/// The lower-case form of a string (`str::to_lowercase`).
pub uninterp spec fn lowercase(s: Seq<char>) -> Seq<char>;

/// `str::to_lowercase`: the Unicode lower-case mapping of a string. The
/// contract names its result `lowercase(s)`; what the mapping does to each
/// character is Unicode's table and is not stated here.
#[verifier::external_body]
fn to_lowercase(s: &str) -> (r: String)
    ensures
        r@ == lowercase(s@),
{
    s.to_lowercase()
}

/// A pattern `*.ext` matches a lower-cased path when the path ends with the
/// pattern without its leading `*`s.
pub open spec fn pattern_matches(lower: Seq<char>, pattern: Seq<char>) -> bool {
    ends_with(lower, trim_start_char(pattern, '*'))
}

/// A pattern `*.ext` claims exactly the lower-cased paths that end with
/// `.ext`, the dot included: `*.h` claims `x.h` and not `x.sh`.
pub proof fn law_pattern_is_an_extension(lower: Seq<char>, ext: Seq<char>)
    ensures
        pattern_matches(lower, seq!['*', '.'] + ext) <==> ends_with(lower, seq!['.'] + ext),
{
    let p = seq!['*', '.'] + ext;
    assert(p.drop_first() =~= seq!['.'] + ext);
    assert((seq!['.'] + ext)[0] == '.');
    assert(trim_start_char(seq!['.'] + ext, '*') == seq!['.'] + ext);
}

/// A definition claims a lower-cased path when one of its patterns matches.
pub open spec fn def_matches(lower: Seq<char>, d: DefView) -> bool {
    exists|j: int| 0 <= j < d.patterns.len() && pattern_matches(lower, #[trigger] d.patterns[j])
}

/// The first definition, from index `i` on, that claims the path.
pub open spec fn first_match_from(lower: Seq<char>, defs: Seq<DefView>, i: int) -> Option<int>
    decreases defs.len() - i,
{
    if i < 0 || i >= defs.len() {
        None
    } else if def_matches(lower, defs[i]) {
        Some(i)
    } else {
        first_match_from(lower, defs, i + 1)
    }
}

/// A match found from `i` on lies in `i..defs.len()` and is claimed.
pub proof fn lemma_first_match_in_range(lower: Seq<char>, defs: Seq<DefView>, i: int)
    requires
        0 <= i,
    ensures
        first_match_from(lower, defs, i) matches Some(k) ==> i <= k < defs.len() && def_matches(
            lower,
            defs[k],
        ),
    decreases defs.len() - i,
{
    if i < defs.len() && !def_matches(lower, defs[i]) {
        lemma_first_match_in_range(lower, defs, i + 1);
    }
}

/// Every built-in pattern is `*.` followed by an extension.
pub proof fn law_builtin_patterns_are_extensions()
    ensures
        forall|i: int, j: int|
            0 <= i < builtin_defs().len() && 0 <= j < builtin_defs()[i].patterns.len() ==> {
                let p = #[trigger] builtin_defs()[i].patterns[j];
                p.len() >= 3 && p[0] == '*' && p[1] == '.' && p.skip(2)[0] != '.'
            },
{
    reveal_strlit("*.md");
    reveal_strlit("*.c");
    reveal_strlit("*.h");
    reveal_strlit("*.cpp");
    reveal_strlit("*.hpp");
    reveal_strlit("*.cc");
    reveal_strlit("*.hh");
    reveal_strlit("*.rs");
    reveal_strlit("*.py");
    reveal_strlit("*.scd");
    reveal_strlit("*.sc");
    reveal_strlit("*.sh");
    reveal_strlit("*.bash");
    reveal_strlit("*.zsh");
    reveal_strlit("*.yaml");
    reveal_strlit("*.yml");
    reveal_strlit("*.lua");
    reveal_strlit("*.js");
    reveal_strlit("*.ts");
    reveal_strlit("*.jsx");
    reveal_strlit("*.tsx");
}

/// A definition whose patterns are all `*.ext` claims a lower-cased path
/// exactly when the path ends with one of its extensions, dot included.
pub proof fn law_def_claims_by_extension(lower: Seq<char>, d: DefView)
    requires
        forall|j: int|
            0 <= j < d.patterns.len() ==> (#[trigger] d.patterns[j]).len() >= 2 && d.patterns[j][0]
                == '*' && d.patterns[j][1] == '.',
    ensures
        def_matches(lower, d) <==> exists|j: int|
            0 <= j < d.patterns.len() && ends_with(lower, (#[trigger] d.patterns[j]).skip(1)),
{
    assert forall|j: int| 0 <= j < d.patterns.len() implies pattern_matches(lower, #[trigger] d.patterns[j])
        == ends_with(lower, d.patterns[j].skip(1)) by {
        let p = d.patterns[j];
        let ext = p.skip(2);
        assert(p =~= seq!['*', '.'] + ext);
        assert(p.skip(1) =~= seq!['.'] + ext);
        law_pattern_is_an_extension(lower, ext);
    }
}

proof fn lemma_first_match(lower: Seq<char>, defs: Seq<DefView>, i: int)
    requires
        0 <= i,
    ensures
        first_match_from(lower, defs, i) matches Some(k) ==> i <= k < defs.len() && def_matches(
            lower,
            defs[k],
        ) && forall|j: int| i <= j < k ==> !def_matches(lower, #[trigger] defs[j]),
        first_match_from(lower, defs, i) is None ==> forall|j: int|
            i <= j < defs.len() ==> !def_matches(lower, #[trigger] defs[j]),
    decreases defs.len() - i,
{
    if i < defs.len() && !def_matches(lower, defs[i]) {
        lemma_first_match(lower, defs, i + 1);
    }
}

/// The extractor of a path is the first definition, in order, that claims
/// its lower-cased form: it claims the path and no definition before it
/// does; there is none when no definition claims the path.
pub proof fn law_extractor_is_first_claim(path: Seq<char>, defs: Seq<DefView>)
    ensures
        extractor_for(path, defs) matches Some(k) ==> 0 <= k < defs.len() && def_matches(
            lowercase(path),
            defs[k],
        ) && forall|j: int| 0 <= j < k ==> !def_matches(lowercase(path), #[trigger] defs[j]),
        extractor_for(path, defs) is None ==> forall|j: int|
            0 <= j < defs.len() ==> !def_matches(lowercase(path), #[trigger] defs[j]),
{
    lemma_first_match(lowercase(path), defs, 0);
}

/// `x` holds no `.`.
pub open spec fn dot_free(x: Seq<char>) -> bool {
    forall|i: int| 0 <= i < x.len() ==> #[trigger] x[i] != '.'
}

/// A name has one extension: when it ends with `.x` and with `.y`, and
/// neither `x` nor `y` holds a dot, then `x` and `y` are the same.
pub proof fn law_one_extension(s: Seq<char>, x: Seq<char>, y: Seq<char>)
    requires
        dot_free(x),
        dot_free(y),
        ends_with(s, seq!['.'] + x),
        ends_with(s, seq!['.'] + y),
    ensures
        x == y,
{
    let a = seq!['.'] + x;
    let b = seq!['.'] + y;
    if x.len() < y.len() {
        // The dot of `.x` falls inside `y`.
        let k = s.len() - a.len();
        assert(s.skip(k)[0] == '.');
        assert(s.skip(s.len() - b.len())[k - (s.len() - b.len())] == s[k]);
        assert(b[k - (s.len() - b.len())] == y[k - (s.len() - b.len()) - 1]);
    } else if y.len() < x.len() {
        let k = s.len() - b.len();
        assert(s.skip(k)[0] == '.');
        assert(s.skip(s.len() - a.len())[k - (s.len() - a.len())] == s[k]);
        assert(a[k - (s.len() - a.len())] == x[k - (s.len() - a.len()) - 1]);
    } else {
        assert forall|i: int| 0 <= i < x.len() implies x[i] == y[i] by {
            assert(a[i + 1] == x[i]);
            assert(b[i + 1] == y[i]);
        }
        assert(x =~= y);
    }
}

/// The index of the definition that claims `path`: the first one, in
/// order, with a pattern matching the lower-cased path.
pub open spec fn extractor_for(path: Seq<char>, defs: Seq<DefView>) -> Option<int> {
    first_match_from(lowercase(path), defs, 0)
}

/// Whether `s` ends with `pat[lo..hi]`.
fn ends_with_exec(s: &Vec<char>, pat: &Vec<char>, lo: usize) -> (r: bool)
    requires
        lo <= pat@.len(),
    ensures
        r == ends_with(s@, pat@.skip(lo as int)),
{
    let sl = s.len();
    let pl = pat.len();
    let plen = pat.len() - lo;
    if plen > s.len() {
        return false;
    }
    let off = s.len() - plen;
    let mut k: usize = 0;
    while k < plen
        invariant
            sl == s@.len(),
            pl == pat@.len(),
            plen == pat@.len() - lo,
            plen <= s@.len(),
            off == s@.len() - plen,
            k <= plen,
            lo <= pat@.len(),
            forall|t: int| 0 <= t < k ==> s@[off + t] == #[trigger] pat@[lo + t],
        decreases plen - k,
    {
        if s[off + k] != pat[lo + k] {
            proof {
                assert(s@.skip(off as int)[k as int] != pat@.skip(lo as int)[k as int]);
            }
            return false;
        }
        k = k + 1;
    }
    proof {
        assert forall|t: int| 0 <= t < plen implies s@.skip(off as int)[t] == pat@.skip(lo as int)[t] by {
            assert(s@[off + t] == pat@[lo + t]);
        }
        assert(s@.skip(off as int) =~= pat@.skip(lo as int));
    }
    true
}

/// Whether some pattern of `d` matches the lower-cased path `lower`.
fn def_matches_exec(lower: &Vec<char>, d: &ExtractorDef) -> (r: bool)
    ensures
        r == def_matches(lower@, d@),
{
    let mut j: usize = 0;
    while j < d.patterns.len()
        invariant
            j <= d.patterns@.len(),
            forall|t: int| 0 <= t < j ==> !pattern_matches(lower@, #[trigger] d@.patterns[t]),
        decreases d.patterns@.len() - j,
    {
        let p = chars_of(d.patterns[j].as_str());
        let start = trim_start_char_range(p.as_slice(), 0, p.len(), '*');
        proof {
            assert(p@.subrange(0, p@.len() as int) =~= p@);
            assert(p@.subrange(start as int, p@.len() as int) =~= p@.skip(start as int));
            assert(d@.patterns[j as int] == p@);
        }
        if ends_with_exec(lower, &p, start) {
            return true;
        }
        j = j + 1;
    }
    false
}

/// Find the extractor for an already lower-cased path: the first
/// definition with a pattern `*.ext` that the path ends with.
pub fn find_extractor_lower<'a>(lower: &str, extractors: &'a [ExtractorDef]) -> (r: Option<
    &'a ExtractorDef,
>)
    ensures
        match first_match_from(lower@, defs_view(extractors@), 0) {
            Some(k) => r == Some(&extractors@[k]),
            None => r is None,
        },
{
    let lc = chars_of(lower);
    let ghost defs = defs_view(extractors@);
    let mut i: usize = 0;
    while i < extractors.len()
        invariant
            lc@ == lower@,
            defs == defs_view(extractors@),
            i <= extractors@.len(),
            first_match_from(lower@, defs, 0) == first_match_from(lower@, defs, i as int),
        decreases extractors@.len() - i,
    {
        if def_matches_exec(&lc, &extractors[i]) {
            return Some(&extractors[i]);
        }
        i = i + 1;
    }
    None
}

/// Find the extractor for a file path by its extension: the first
/// definition with a pattern `*.ext` that the lower-cased path ends with.
/// Returns `None` when no definition matches (the file is a leaf).
pub fn find_extractor<'a>(path: &str, extractors: &'a [ExtractorDef]) -> (r: Option<
    &'a ExtractorDef,
>)
    ensures
        match extractor_for(path@, defs_view(extractors@)) {
            Some(k) => r == Some(&extractors@[k]),
            None => r is None,
        },
{
    let lower = to_lowercase(path);
    find_extractor_lower(lower.as_str(), extractors)
}

} // verus!
