//! YAML frontmatter values, through `serde_yaml`.
//!
//! A frontmatter block is parsed as a mapping from string keys to YAML
//! values; each value is then reduced to the library's `FmValue`, which keeps
//! what the library reads of it (its kind, its display text and its JSON
//! encoding).

use vstd::prelude::*;
use crate::types::{FmValue, FrontmatterEntry};

verus! {

#[verifier::external_type_specification]
#[verifier::external_body]
pub struct ExYamlValue(serde_yaml::Value);

/// The variant of a YAML value.
pub enum YamlKind {
    Null,
    Bool(bool),
    Number,
    Str(String),
    Other,
}

/// The view of a frontmatter value.
pub enum FmView {
    Str(Seq<char>),
    Bool(bool),
    Int(i64),
    Null,
    Other(Seq<char>, Seq<char>),
}

impl View for FmValue {
    type V = FmView;

    open spec fn view(&self) -> FmView {
        match self {
            FmValue::Str(s) => FmView::Str(s@),
            FmValue::Bool(b) => FmView::Bool(*b),
            FmValue::Int(i) => FmView::Int(*i),
            FmValue::Null => FmView::Null,
            FmValue::Other { display, json } => FmView::Other(display@, json@),
        }
    }
}

/// The views of frontmatter entries.
pub open spec fn fm_views(fm: Seq<FrontmatterEntry>) -> Seq<(Seq<char>, FmView)> {
    fm.map_values(|e: FrontmatterEntry| (e.key@, e.value@))
}

/// The string-keyed mapping that `serde_yaml::from_str` reads from a text,
/// in key order, or `None` when the text is not such a mapping.
pub uninterp spec fn yaml_mapping(text: Seq<char>) -> Option<Seq<(Seq<char>, serde_yaml::Value)>>;

/// The variant of a YAML value.
pub uninterp spec fn yaml_kind(v: serde_yaml::Value) -> YamlKind;

/// `Value::as_i64` of a YAML value.
pub uninterp spec fn yaml_i64(v: serde_yaml::Value) -> Option<i64>;

/// `Value::as_f64` of a YAML value, formatted with `f64::to_string`.
pub uninterp spec fn yaml_float_text(v: serde_yaml::Value) -> Option<Seq<char>>;

/// `serde_json::to_string` of a YAML value (empty when it fails).
pub uninterp spec fn yaml_json(v: serde_yaml::Value) -> Seq<char>;

/// `serde_yaml::from_value::<Vec<String>>` of a YAML value.
pub uninterp spec fn yaml_string_list(v: serde_yaml::Value) -> Option<Seq<Seq<char>>>;

/// The view of the kind of a YAML value, as the variant alone.
pub open spec fn kind_view(k: YamlKind) -> (int, bool, Seq<char>) {
    match k {
        YamlKind::Null => (0, false, Seq::empty()),
        YamlKind::Bool(b) => (1, b, Seq::empty()),
        YamlKind::Number => (2, false, Seq::empty()),
        YamlKind::Str(s) => (3, false, s@),
        YamlKind::Other => (4, false, Seq::empty()),
    }
}

/// Calls `serde_yaml::from_str` into a `BTreeMap<String, serde_yaml::Value>`
/// and lists its entries (in key order). Claims only that the outcome is a
/// function of the text, named `yaml_mapping`.
#[verifier::external_body]
pub(crate) fn parse_yaml_mapping(text: &str) -> (r: Option<Vec<(String, serde_yaml::Value)>>)
    ensures
        match r {
            Some(v) => yaml_mapping(text@) == Some(
                v@.map_values(|e: (String, serde_yaml::Value)| (e.0@, e.1)),
            ),
            None => yaml_mapping(text@) is None,
        },
{
    match serde_yaml::from_str::<std::collections::BTreeMap<String, serde_yaml::Value>>(text) {
        Ok(m) => Some(m.into_iter().collect()),
        Err(_) => None,
    }
}

/// Tells the variants of `serde_yaml::Value` apart, moving the string or
/// boolean out. Claims that the answer is a function of the value, named
/// `yaml_kind`.
#[verifier::external_body]
pub(crate) fn yaml_kind_of(v: &serde_yaml::Value) -> (r: YamlKind)
    ensures
        kind_view(r) == kind_view(yaml_kind(*v)),
{
    match v {
        serde_yaml::Value::Null => YamlKind::Null,
        serde_yaml::Value::Bool(b) => YamlKind::Bool(*b),
        serde_yaml::Value::Number(_) => YamlKind::Number,
        serde_yaml::Value::String(s) => YamlKind::Str(s.clone()),
        serde_yaml::Value::Sequence(_) => YamlKind::Other,
        serde_yaml::Value::Mapping(_) => YamlKind::Other,
        serde_yaml::Value::Tagged(_) => YamlKind::Other,
    }
}

/// Calls `serde_yaml::Value::as_i64`, named `yaml_i64`.
#[verifier::external_body]
pub(crate) fn yaml_as_i64(v: &serde_yaml::Value) -> (r: Option<i64>)
    ensures
        r == yaml_i64(*v),
{
    v.as_i64()
}

/// Calls `serde_yaml::Value::as_f64` and formats the number with
/// `to_string`; named `yaml_float_text`.
#[verifier::external_body]
pub(crate) fn yaml_as_float_text(v: &serde_yaml::Value) -> (r: Option<String>)
    ensures
        match r {
            Some(s) => yaml_float_text(*v) == Some(s@),
            None => yaml_float_text(*v) is None,
        },
{
    match v.as_f64() {
        Some(f) => Some(f.to_string()),
        None => None,
    }
}

/// Calls `serde_json::to_string` on a YAML value (empty text when it
/// fails); named `yaml_json`.
#[verifier::external_body]
pub(crate) fn yaml_to_json(v: &serde_yaml::Value) -> (r: String)
    ensures
        r@ == yaml_json(*v),
{
    serde_json::to_string(v).unwrap_or_default()
}

/// Calls `serde_yaml::from_value::<Vec<String>>` on a copy of a YAML value;
/// named `yaml_string_list`.
#[verifier::external_body]
pub(crate) fn yaml_to_string_list(v: &serde_yaml::Value) -> (r: Option<Vec<String>>)
    ensures
        match r {
            Some(l) => yaml_string_list(*v) == Some(l@.map_values(|s: String| s@)),
            None => yaml_string_list(*v) is None,
        },
{
    serde_yaml::from_value::<Vec<String>>(v.clone()).ok()
}

/// The frontmatter value that a YAML value is reduced to.
pub open spec fn fm_view_of(v: serde_yaml::Value) -> FmView {
    match yaml_kind(v) {
        YamlKind::Null => FmView::Null,
        YamlKind::Bool(b) => FmView::Bool(b),
        YamlKind::Str(s) => FmView::Str(s@),
        YamlKind::Number => match yaml_i64(v) {
            Some(i) => FmView::Int(i),
            None => FmView::Other(
                match yaml_float_text(v) {
                    Some(t) => t,
                    None => Seq::empty(),
                },
                yaml_json(v),
            ),
        },
        YamlKind::Other => FmView::Other(yaml_json(v), yaml_json(v)),
    }
}

/// Reduces a YAML value to a frontmatter value.
pub fn fm_value_of(v: &serde_yaml::Value) -> (r: FmValue)
    ensures
        r@ == fm_view_of(*v),
{
    let k = yaml_kind_of(v);
    match k {
        YamlKind::Null => FmValue::Null,
        YamlKind::Bool(b) => FmValue::Bool(b),
        YamlKind::Str(s) => FmValue::Str(s),
        YamlKind::Number => match yaml_as_i64(v) {
            Some(i) => FmValue::Int(i),
            None => {
                let display = match yaml_as_float_text(v) {
                    Some(t) => t,
                    None => String::new(),
                };
                FmValue::Other { display, json: yaml_to_json(v) }
            },
        },
        YamlKind::Other => {
            let j = yaml_to_json(v);
            let j2 = j.clone();
            FmValue::Other { display: j, json: j2 }
        },
    }
}

/// The frontmatter entries read from a YAML text: every key of the mapping
/// with its reduced value, or none when the text is not a mapping.
pub open spec fn fm_entries_of(text: Seq<char>) -> Seq<(Seq<char>, FmView)> {
    match yaml_mapping(text) {
        Some(m) => m.map_values(|e: (Seq<char>, serde_yaml::Value)| (e.0, fm_view_of(e.1))),
        None => Seq::empty(),
    }
}

/// The tags of a YAML text: its `tags` field read as a list of strings, or
/// none.
pub open spec fn tags_of(text: Seq<char>) -> Seq<Seq<char>> {
    match yaml_mapping(text) {
        Some(m) => match first_value(m, seq!['t', 'a', 'g', 's']) {
            Some(v) => match yaml_string_list(v) {
                Some(l) => l,
                None => Seq::empty(),
            },
            None => Seq::empty(),
        },
        None => Seq::empty(),
    }
}

/// The value of the first entry with key `k`.
pub open spec fn first_value(m: Seq<(Seq<char>, serde_yaml::Value)>, k: Seq<char>) -> Option<serde_yaml::Value>
    decreases m.len(),
{
    if m.len() == 0 {
        None
    } else if m[0].0 == k {
        Some(m[0].1)
    } else {
        first_value(m.drop_first(), k)
    }
}

/// Parses a frontmatter block into its entries and its tags.
pub fn parse_yaml_frontmatter(text: &str) -> (r: (Vec<FrontmatterEntry>, Vec<String>))
    ensures
        fm_views(r.0@) == fm_entries_of(text@),
        r.1@.map_values(|s: String| s@) == tags_of(text@),
{
    let mut entries: Vec<FrontmatterEntry> = Vec::new();
    let mut tags: Vec<String> = Vec::new();
    match parse_yaml_mapping(text) {
        None => {
            assert(fm_views(entries@) =~= Seq::<(Seq<char>, FmView)>::empty());
            assert(tags@.map_values(|s: String| s@) =~= Seq::<Seq<char>>::empty());
        },
        Some(pairs) => {
            let ghost m = pairs@.map_values(|e: (String, serde_yaml::Value)| (e.0@, e.1));
            let tags_key = crate::text::chars_of("tags");
            proof {
                reveal_strlit("tags");
            }
            assert(tags_key@ =~= seq!['t', 'a', 'g', 's']);
            let mut found = false;
            let mut i: usize = 0;
            assert(m.skip(0) =~= m);
            assert(m.take(0) =~= Seq::<(Seq<char>, serde_yaml::Value)>::empty());
            assert(first_value(Seq::<(Seq<char>, serde_yaml::Value)>::empty(), tags_key@) is None);
            assert(fm_views(entries@) =~= Seq::<(Seq<char>, FmView)>::empty());
            while i < pairs.len()
                invariant
                    i <= pairs.len(),
                    m == pairs@.map_values(|e: (String, serde_yaml::Value)| (e.0@, e.1)),
                    tags_key@ == seq!['t', 'a', 'g', 's'],
                    fm_views(entries@) == m.take(i as int).map_values(
                        |e: (Seq<char>, serde_yaml::Value)| (e.0, fm_view_of(e.1)),
                    ),
                    found ==> first_value(m, tags_key@) == first_value(m.take(i as int), tags_key@),
                    found ==> first_value(m, tags_key@) is Some,
                    !found ==> first_value(m, tags_key@) == first_value(m.skip(i as int), tags_key@)
                        && first_value(m.take(i as int), tags_key@) is None,
                    found ==> tags@.map_values(|s: String| s@) == match first_value(m, tags_key@) {
                        Some(v) => match yaml_string_list(v) {
                            Some(l) => l,
                            None => Seq::empty(),
                        },
                        None => Seq::<Seq<char>>::empty(),
                    },
                    !found ==> tags@.len() == 0,
                decreases pairs.len() - i,
            {
                let key = &pairs[i].0;
                let value = &pairs[i].1;
                let fv = fm_value_of(value);
                let k2 = key.clone();
                let ghost prev = fm_views(entries@);
                entries.push(FrontmatterEntry { key: k2, value: fv });
                proof {
                    assert(fm_views(entries@) =~= prev.push((key@, fm_view_of(*value))));
                    assert(m.take(i + 1) =~= m.take(i as int).push(m[i as int]));
                    assert(m.take(i + 1).map_values(|e: (Seq<char>, serde_yaml::Value)| (e.0, fm_view_of(e.1))) =~= m.take(i as int).map_values(|e: (Seq<char>, serde_yaml::Value)| (e.0, fm_view_of(e.1))).push((key@, fm_view_of(*value))));
                    lemma_first_value_take(m, tags_key@, i as int);
                }
                if !found {
                    let kc = crate::text::chars_of(key.as_str());
                    if crate::text::chars_eq(kc.as_slice(), tags_key.as_slice()) {
                        found = true;
                        proof {
                            let s = m.skip(i as int);
                            assert(s[0] == m[i as int]);
                        }
                        match yaml_to_string_list(value) {
                            Some(l) => {
                                tags = l;
                            },
                            None => {},
                        }
                    } else {
                        proof {
                            let s = m.skip(i as int);
                            assert(s.drop_first() =~= m.skip(i + 1));
                        }
                    }
                }
                i = i + 1;
            }
            proof {
                assert(m.take(pairs.len() as int) =~= m);
                if !found {
                    assert(m.skip(pairs.len() as int) =~= Seq::<(Seq<char>, serde_yaml::Value)>::empty());
                    assert(tags@.map_values(|s: String| s@) =~= Seq::<Seq<char>>::empty());
                }
            }
        },
    }
    (entries, tags)
}

proof fn lemma_first_value_take(m: Seq<(Seq<char>, serde_yaml::Value)>, k: Seq<char>, i: int)
    requires
        0 <= i < m.len(),
    ensures
        first_value(m.take(i + 1), k) == match first_value(m.take(i), k) {
            Some(v) => Some(v),
            None => if m[i].0 == k {
                Some(m[i].1)
            } else {
                None
            },
        },
    decreases i,
{
    let e = Seq::<(Seq<char>, serde_yaml::Value)>::empty();
    assert(first_value(e, k) is None);
    assert(m.take(i + 1)[0] == m[0]);
    if i == 0 {
        assert(m.take(1).drop_first() =~= e);
        assert(m.take(0) =~= e);
    } else {
        assert(m.take(i)[0] == m[0]);
        lemma_first_value_take(m.drop_first(), k, i - 1);
        assert(m.take(i + 1).drop_first() =~= m.drop_first().take(i));
        assert(m.take(i).drop_first() =~= m.drop_first().take(i - 1));
    }
}

} // verus!
