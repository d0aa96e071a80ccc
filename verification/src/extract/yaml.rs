//! YAML values as the frontmatter extractor reads them.
//!
//! `serde_yaml` parses the text; `YamlValue` holds, as plain values, what
//! the extractor reads of the result: the shape of the value, the decimal
//! text of numbers, and for a mapping the YAML text `serde_yaml` writes
//! for it.

use vstd::prelude::*;
use vstd::string::StringExecFns;
use crate::text::string_lit;

verus! {

/// `serde_yaml::Value`, as it comes out of the parser.
#[verifier::external_type_specification]
#[verifier::external_body]
pub struct ExYamlValue(serde_yaml::Value);

/// A parsed YAML value.
#[derive(Debug)]
pub enum YamlValue {
    Null,
    Bool(bool),
    /// A number, as the decimal text `serde_yaml` displays it with.
    Number(String),
    Str(String),
    Sequence(Vec<YamlValue>),
    /// The entries in document order, and the YAML text of the mapping
    /// (`None` when it could not be written).
    Mapping(Vec<(YamlValue, YamlValue)>, Option<String>),
    /// A tagged value; the tag itself is not kept.
    Tagged(Box<YamlValue>),
}

/// The value `serde_yaml` parses from `text`, if the text is YAML, as a
/// `YamlValue`. The name covers three functions of `serde_yaml`, all of
/// them functions of their input alone: `from_str` (the parse), the
/// `Display` of `Number` (the text of each number) and `to_string` (the
/// YAML text kept with each mapping).
pub uninterp spec fn yaml_document(text: Seq<char>) -> Option<YamlValue>;

/// `serde_yaml::from_str::<serde_yaml::Value>`: parses `text` as one YAML
/// document. The contract names the result `yaml_document(text)`, a
/// function of the text alone; what YAML means is `serde_yaml`'s and is not
/// stated here. The value is converted node by node into `YamlValue`.
#[verifier::external_body]
pub(crate) fn parse_yaml(text: &str) -> (r: Option<YamlValue>)
    ensures
        r == yaml_document(text@),
{
    serde_yaml::from_str::<serde_yaml::Value>(text).ok().map(yaml_value_from)
}

/// The conversion of a `serde_yaml::Value` into a `YamlValue`, one node for
/// one node: a number becomes its `Display` text, a mapping keeps its
/// entries and the text `serde_yaml::to_string` writes for it. Used by
/// `parse_yaml` only.
#[verifier::external_body]
fn yaml_value_from(v: serde_yaml::Value) -> YamlValue {
    match v {
        serde_yaml::Value::Null => YamlValue::Null,
        serde_yaml::Value::Bool(b) => YamlValue::Bool(b),
        serde_yaml::Value::Number(n) => YamlValue::Number(n.to_string()),
        serde_yaml::Value::String(s) => YamlValue::Str(s),
        serde_yaml::Value::Sequence(xs) => YamlValue::Sequence(xs.into_iter().map(yaml_value_from).collect()),
        serde_yaml::Value::Mapping(m) => YamlValue::Mapping(
            m.iter().map(|(k, x)| (yaml_value_from(k.clone()), yaml_value_from(x.clone()))).collect(),
            serde_yaml::to_string(&m).ok(),
        ),
        serde_yaml::Value::Tagged(t) => YamlValue::Tagged(Box::new(yaml_value_from(t.value))),
    }
}

/// The value under any tags.
pub open spec fn untag(v: YamlValue) -> YamlValue
    decreases v,
{
    match v {
        YamlValue::Tagged(inner) => untag(*inner),
        _ => v,
    }
}

/// The text a value is stored as: scalars as written, sequences as
/// `[a, b, c]`, mappings as their YAML text (`{}` when it could not be
/// written), tagged values as the value under the tag.
pub open spec fn yaml_text(v: YamlValue) -> Seq<char>
    decreases v, 0nat,
{
    match v {
        YamlValue::Null => "null"@,
        YamlValue::Bool(b) => if b {
            "true"@
        } else {
            "false"@
        },
        YamlValue::Number(n) => n@,
        YamlValue::Str(s) => s@,
        YamlValue::Sequence(items) => "["@ + items_text(items@) + "]"@,
        YamlValue::Mapping(_, text) => match text {
            Some(t) => t@,
            None => "{}"@,
        },
        YamlValue::Tagged(inner) => yaml_text(*inner),
    }
}

/// The texts of a list of values joined by `, `.
pub open spec fn items_text(items: Seq<YamlValue>) -> Seq<char>
    decreases items, 1nat,
{
    if items.len() == 0 {
        seq![]
    } else if items.len() == 1 {
        yaml_text(items[0])
    } else {
        items_text(items.drop_last()) + ", "@ + yaml_text(items.last())
    }
}

/// The value under any tags.
pub fn untag_exec(v: &YamlValue) -> (r: &YamlValue)
    ensures
        *r == untag(*v),
    decreases v,
{
    match v {
        YamlValue::Tagged(inner) => untag_exec(inner),
        _ => v,
    }
}

/// The text a value is stored as.
pub fn yaml_value_to_string(v: &YamlValue) -> (r: String)
    ensures
        r@ == yaml_text(*v),
    decreases v,
{
    match v {
        YamlValue::Null => string_lit("null"),
        YamlValue::Bool(b) => if *b {
            string_lit("true")
        } else {
            string_lit("false")
        },
        YamlValue::Number(n) => n.clone(),
        YamlValue::Str(s) => s.clone(),
        YamlValue::Sequence(items) => {
            let mut r = String::new();
            r.append("[");
            let mut i: usize = 0;
            proof {
                assert(items@.take(0) =~= Seq::<YamlValue>::empty());
            }
            while i < items.len()
                invariant
                    *v == YamlValue::Sequence(*items),
                    i <= items@.len(),
                    r@ == "["@ + items_text(items@.take(i as int)),
                decreases items@.len() - i,
            {
                let ghost before = r@;
                if i > 0 {
                    r.append(", ");
                }
                proof {
                    assert(decreases_to!(*v => (*v)->Sequence_0));
                    assert((*v)->Sequence_0 == *items);
                    assert(decreases_to!(*items => items@));
                    assert(decreases_to!(items@ => items@[i as int]));
                    assert(decreases_to!(*v => items@[i as int]));
                }
                let t = yaml_value_to_string(&items[i]);
                r.append(t.as_str());
                proof {
                    let tk = items@.take(i + 1);
                    assert(tk.drop_last() =~= items@.take(i as int));
                    assert(tk.last() == items@[i as int]);
                    if i == 0 {
                        assert(tk =~= seq![items@[0]]);
                    }
                }
                i = i + 1;
            }
            r.append("]");
            proof {
                assert(items@.take(i as int) =~= items@);
            }
            r
        },
        YamlValue::Mapping(_, text) => match text {
            Some(t) => t.clone(),
            None => string_lit("{}"),
        },
        YamlValue::Tagged(inner) => yaml_value_to_string(inner),
    }
}

} // verus!
