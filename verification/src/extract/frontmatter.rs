//! Frontmatter extraction: the YAML key-value pairs of the `---`-delimited
//! block at the top of a markdown file. Values are always stored as
//! strings; projectors interpret them.

use vstd::prelude::*;
use crate::extract::yaml::{
    YamlValue, items_text, parse_yaml, untag, untag_exec, yaml_document, yaml_text,
    yaml_value_to_string,
};
use crate::text::{
    chars_of, find, find_in, first_newline, lemma_find_from, lemma_first_newline,
    lemma_first_newline_at, matches_at, starts_with, string_of, trim_start, trim_start_range,
};
use crate::types::{Attribute, AttributeView, NodePath, attributes_view};

verus! {

/// `---`
pub open spec fn fence() -> Seq<char> {
    seq!['-', '-', '-']
}

/// `\n---`
pub open spec fn closing_fence() -> Seq<char> {
    seq!['\n', '-', '-', '-']
}

/// The frontmatter block of a text: the text, without leading whitespace,
/// must start with `---`; the block is the text between that line and the
/// closing `---`: empty when the next line is the closing `---`, else what
/// comes before the first following `\n---`.
pub open spec fn frontmatter_block(content: Seq<char>) -> Option<Seq<char>> {
    let t = trim_start(content);
    if !starts_with(t, fence()) {
        None
    } else {
        let a = t.skip(3);
        let k = first_newline(a) as int;
        if k >= a.len() {
            None
        } else {
            let rest = a.skip(k + 1);
            if starts_with(rest, fence()) {
                Some(seq![])
            } else {
                match find(rest, closing_fence()) {
                    Some(c) => Some(rest.take(c)),
                    None => None,
                }
            }
        }
    }
}

/// No line of `b` but the first starts with `---`: no `\\n---` stands in `b`.
pub open spec fn no_closing_fence(b: Seq<char>) -> bool {
    forall|j: int|
        0 <= j && j + 4 <= b.len() ==> !(#[trigger] b[j] == '\n' && b[j + 1] == '-' && b[j + 2] == '-'
            && b[j + 3] == '-')
}

proof fn lemma_find_fence(rest: Seq<char>, m: int)
    requires
        0 <= m,
        m + 4 <= rest.len(),
        rest.subrange(m, m + 4) == closing_fence(),
        forall|j: int| 0 <= j < m ==> !matches_at(rest, closing_fence(), j),
    ensures
        find(rest, closing_fence()) == Some(m),
{
    lemma_find_from(rest, closing_fence(), 0);
    assert(matches_at(rest, closing_fence(), m));
    match find(rest, closing_fence()) {
        Some(c) => {
            if c < m {
                assert(!matches_at(rest, closing_fence(), c));
            } else if c > m {
                assert(!matches_at(rest, closing_fence(), m));
            }
        },
        None => {
            assert(!matches_at(rest, closing_fence(), m));
        },
    }
}

proof fn lemma_block_opening(c: Seq<char>, k: int)
    requires
        0 <= k,
        c.len() >= 4 + k,
        c[0] == '-' && c[1] == '-' && c[2] == '-',
        forall|i: int| 3 <= i < 3 + k ==> #[trigger] c[i] != '\n',
        c[3 + k] == '\n',
    ensures
        frontmatter_block(c) == (if starts_with(c.skip(4 + k), fence()) {
            Some(Seq::<char>::empty())
        } else {
            match find(c.skip(4 + k), closing_fence()) {
                Some(e) => Some(c.skip(4 + k).take(e)),
                None => None,
            }
        }),
{
    assert(trim_start(c) == c);
    assert(c.take(3) =~= fence());
    let a = c.skip(3);
    assert forall|i: int| 0 <= i < k implies #[trigger] a[i] != '\n' by {
        assert(a[i] == c[3 + i]);
    }
    assert(a[k] == '\n');
    lemma_first_newline_at(a, k);
    assert(a.skip(k + 1) =~= c.skip(4 + k));
}

proof fn lemma_rest_with_fence(b: Seq<char>, w: Seq<char>)
    requires
        no_closing_fence(b),
        !starts_with(b, fence()),
    ensures
        !starts_with(b + closing_fence() + w, fence()),
        find(b + closing_fence() + w, closing_fence()) == Some(b.len() as int),
        (b + closing_fence() + w).take(b.len() as int) == b,
{
    let r1 = b + closing_fence() + w;
    let m = b.len() as int;
    assert(r1[m] == '\n');
    if starts_with(r1, fence()) {
        if m >= 3 {
            assert(b.take(3) =~= r1.take(3));
        } else {
            assert(r1.take(3)[m] == r1[m]);
        }
    }
    assert(r1.subrange(m, m + 4) =~= closing_fence());
    assert forall|j: int| 0 <= j < m implies !matches_at(r1, closing_fence(), j) by {
        if matches_at(r1, closing_fence(), j) {
            let t = r1.subrange(j, j + 4);
            assert(t[0] == r1[j] && t[1] == r1[j + 1] && t[2] == r1[j + 2] && t[3] == r1[j + 3]);
            if j + 4 <= m {
                assert(b[j] == r1[j] && b[j + 1] == r1[j + 1] && b[j + 2] == r1[j + 2] && b[j + 3]
                    == r1[j + 3]);
            } else {
                assert(r1[m] == '\n');
            }
        }
    }
    lemma_find_fence(r1, m);
    assert(r1.take(m) =~= b);
}

/// The frontmatter block is what stands between the opening and the
/// closing `---`: a text that starts with a `---` line (the rest of that
/// line `a` is ignored), then the lines `b`, then a line starting with
/// `---`, has `b` as its block when no line of `b` starts with `---`.
pub proof fn law_frontmatter_block_between_fences(a: Seq<char>, b: Seq<char>, w: Seq<char>)
    requires
        forall|i: int| 0 <= i < a.len() ==> #[trigger] a[i] != '\n',
        no_closing_fence(b),
        !starts_with(b, fence()),
    ensures
        frontmatter_block(fence() + a + seq!['\n'] + b + closing_fence() + w) == Some(b),
{
    let c = fence() + a + seq!['\n'] + b + closing_fence() + w;
    let k = a.len() as int;
    assert forall|i: int| 3 <= i < 3 + k implies #[trigger] c[i] != '\n' by {
        assert(c[i] == a[i - 3]);
    }
    assert(c[3 + k] == '\n');
    lemma_block_opening(c, k);
    assert(c.skip(4 + k) =~= b + closing_fence() + w);
    lemma_rest_with_fence(b, w);
}

/// When the line after the opening `---` line starts with `---`, the
/// frontmatter block is empty.
pub proof fn law_frontmatter_block_empty(a: Seq<char>, w: Seq<char>)
    requires
        forall|i: int| 0 <= i < a.len() ==> #[trigger] a[i] != '\n',
    ensures
        frontmatter_block(fence() + a + seq!['\n'] + fence() + w) == Some(Seq::<char>::empty()),
{
    let c = fence() + a + seq!['\n'] + fence() + w;
    let k = a.len() as int;
    assert forall|i: int| 3 <= i < 3 + k implies #[trigger] c[i] != '\n' by {
        assert(c[i] == a[i - 3]);
    }
    assert(c[3 + k] == '\n');
    lemma_block_opening(c, k);
    assert(c.skip(4 + k) =~= fence() + w);
    assert(c.skip(4 + k).take(3) =~= fence());
}

/// The entries of a value that is a mapping (under any tags).
pub open spec fn mapping_entries(v: YamlValue) -> Option<Seq<(YamlValue, YamlValue)>> {
    match untag(v) {
        YamlValue::Mapping(entries, _) => Some(entries@),
        _ => None,
    }
}

/// The text of a key that is a string (under any tags).
pub open spec fn key_text(k: YamlValue) -> Option<Seq<char>> {
    match untag(k) {
        YamlValue::Str(s) => Some(s@),
        _ => None,
    }
}

/// The attributes of mapping entries: one per entry whose key is a string.
pub open spec fn entries_attributes(file: Seq<char>, es: Seq<(YamlValue, YamlValue)>) -> Seq<
    AttributeView,
>
    decreases es.len(),
{
    if es.len() == 0 {
        seq![]
    } else {
        entries_attributes(file, es.drop_last()) + match key_text(es.last().0) {
            Some(k) => seq![AttributeView { file, key: k, value: yaml_text(es.last().1) }],
            None => seq![],
        }
    }
}

/// The attributes of a file: those of its frontmatter block when the block
/// parses as a YAML mapping, none otherwise.
pub open spec fn frontmatter_attributes(file: Seq<char>, content: Seq<char>) -> Seq<AttributeView> {
    match frontmatter_block(content) {
        None => seq![],
        Some(fm) => match yaml_document(fm) {
            None => seq![],
            Some(doc) => document_attributes(file, doc),
        },
    }
}

/// The range of the frontmatter block of `s`.
fn frontmatter_range(s: &[char]) -> (r: Option<(usize, usize)>)
    ensures
        match r {
            Some((a, b)) => a <= b <= s@.len() && frontmatter_block(s@) == Some(
                s@.subrange(a as int, b as int),
            ),
            None => frontmatter_block(s@) is None,
        },
{
    let len = s.len();
    let t0 = trim_start_range(s, 0, len);
    let ghost t = s@.subrange(t0 as int, len as int);
    proof {
        assert(s@.subrange(0, len as int) =~= s@);
    }
    if len - t0 < 3 || s[t0] != '-' || s[t0 + 1] != '-' || s[t0 + 2] != '-' {
        proof {
            if starts_with(t, fence()) {
                assert(t.take(3)[0] == s@[t0 as int]);
                assert(t.take(3)[1] == s@[t0 + 1]);
                assert(t.take(3)[2] == s@[t0 + 2]);
            }
        }
        return None;
    }
    proof {
        assert(t.take(3) =~= fence());
    }
    let a = t0 + 3;
    let mut k = a;
    while k < len && s[k] != '\n'
        invariant
            a <= k <= len == s@.len(),
            forall|i: int| a <= i < k ==> #[trigger] s@[i] != '\n',
        decreases len - k,
    {
        k = k + 1;
    }
    let ghost av = t.skip(3);
    proof {
        assert(av =~= s@.subrange(a as int, len as int));
        assert forall|i: int| 0 <= i < k - a implies #[trigger] av[i] != '\n' by {
            assert(av[i] == s@[a + i]);
        }
        lemma_first_newline_at(av, k - a);
    }
    if k == len {
        return None;
    }
    let r0 = k + 1;
    proof {
        assert(av.skip(k - a + 1) =~= s@.subrange(r0 as int, len as int));
    }
    if len - r0 >= 3 && s[r0] == '-' && s[r0 + 1] == '-' && s[r0 + 2] == '-' {
        proof {
            let rest = s@.subrange(r0 as int, len as int);
            assert(rest.take(3) =~= fence());
            assert(s@.subrange(r0 as int, r0 as int) =~= Seq::<char>::empty());
        }
        return Some((r0, r0));
    }
    proof {
        let rest = s@.subrange(r0 as int, len as int);
        if starts_with(rest, fence()) {
            assert(rest.take(3)[0] == s@[r0 as int]);
            assert(rest.take(3)[1] == s@[r0 + 1]);
            assert(rest.take(3)[2] == s@[r0 + 2]);
        }
    }
    let close: Vec<char> = vec!['\n', '-', '-', '-'];
    proof {
        assert(close@ == closing_fence());
        assert(av.skip(k - a + 1) =~= s@.subrange(r0 as int, len as int));
    }
    match find_in(s, r0, len, close.as_slice()) {
        Some(c) => {
            proof {
                let rest = s@.subrange(r0 as int, len as int);
                lemma_find_from(rest, closing_fence(), 0);
                assert(rest.take(c - r0) =~= s@.subrange(r0 as int, c as int));
            }
            Some((r0, c))
        },
        None => None,
    }
}

proof fn lemma_entries_take(file: Seq<char>, es: Seq<(YamlValue, YamlValue)>, i: int)
    requires
        0 <= i < es.len(),
    ensures
        entries_attributes(file, es.take(i + 1)) == entries_attributes(file, es.take(i)) + match key_text(
            es[i].0,
        ) {
            Some(k) => seq![AttributeView { file, key: k, value: yaml_text(es[i].1) }],
            None => seq![],
        },
{
    assert(es.take(i + 1).drop_last() =~= es.take(i));
}

/// The attributes a parsed frontmatter document gives: one per entry of a
/// mapping whose key is a string; none when the document is not a mapping.
pub open spec fn document_attributes(file: Seq<char>, doc: YamlValue) -> Seq<AttributeView> {
    match mapping_entries(doc) {
        None => seq![],
        Some(es) => entries_attributes(file, es),
    }
}

/// The attributes of `file_path` that the parsed frontmatter document
/// `doc` holds: each top-level entry with a string key becomes an
/// attribute; scalar values are stored as written, sequences as
/// `[a, b, c]`, mappings as their YAML text.
pub fn attributes_of_document(file_path: &NodePath, doc: &YamlValue) -> (r: Vec<Attribute>)
    ensures
        attributes_view(r@) == document_attributes(file_path@, *doc),
{
    let mut out: Vec<Attribute> = Vec::new();
    let entries = match untag_exec(doc) {
        YamlValue::Mapping(entries, _) => entries,
        _ => {
            proof {
                assert(attributes_view(out@) =~= seq![]);
            }
            return out;
        },
    };
    let ghost es = entries@;
    let ghost file = file_path@;
    let mut i: usize = 0;
    proof {
        assert(es.take(0) =~= Seq::<(YamlValue, YamlValue)>::empty());
        assert(attributes_view(out@) =~= seq![]);
    }
    while i < entries.len()
        invariant
            es == entries@,
            file == file_path@,
            i <= es.len(),
            attributes_view(out@) == entries_attributes(file, es.take(i as int)),
        decreases es.len() - i,
    {
        let (key, value) = &entries[i];
        let ghost before = attributes_view(out@);
        proof {
            lemma_entries_take(file, es, i as int);
        }
        match untag_exec(key) {
            YamlValue::Str(k) => {
                let attr = Attribute {
                    file: file_path.clone(),
                    key: k.clone(),
                    value: yaml_value_to_string(value),
                };
                out.push(attr);
                proof {
                    assert(attributes_view(out@) =~= before + seq![
                        AttributeView { file, key: k@, value: yaml_text(*value) },
                    ]);
                }
            },
            _ => {
                proof {
                    assert(key_text(*key) is None);
                }
            },
        }
        i = i + 1;
    }
    proof {
        assert(es.take(i as int) =~= es);
    }
    out
}

/// Extract YAML frontmatter key-value pairs from a markdown file.
///
/// Frontmatter is delimited by `---` at the start and end. Each top-level
/// entry with a string key becomes an attribute (`attributes_of_document`).
/// Returns no attributes when there is no frontmatter, when it is not
/// YAML, or when it is not a mapping.
pub fn extract_frontmatter(file_path: &NodePath, content: &str) -> (r: Vec<Attribute>)
    ensures
        attributes_view(r@) == frontmatter_attributes(file_path@, content@),
{
    let s = chars_of(content);
    let (a, b) = match frontmatter_range(s.as_slice()) {
        Some(range) => range,
        None => {
            let out: Vec<Attribute> = Vec::new();
            proof {
                assert(attributes_view(out@) =~= seq![]);
            }
            return out;
        },
    };
    let fm = string_of(s.as_slice(), a, b);
    match parse_yaml(fm.as_str()) {
        Some(doc) => attributes_of_document(file_path, &doc),
        None => {
            let out: Vec<Attribute> = Vec::new();
            proof {
                assert(attributes_view(out@) =~= seq![]);
            }
            out
        },
    }
}

} // verus!
