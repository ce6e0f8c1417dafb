//! Structured frontmatter queries: filter documents by metadata.

use vstd::prelude::*;
use crate::dates::{parse_ymd, ymd_days};
use crate::format::{display, yaml_value_to_string};
use crate::text::{chars_eq, chars_of, lowercase, to_lowercase};
use crate::types::{fm_get, fm_lookup, Document, FmValue};
use crate::yaml::FmView;

verus! {

/// `status`
pub open spec fn status_key() -> Seq<char> {
    seq!['s', 't', 'a', 't', 'u', 's']
}

/// `created`
pub open spec fn created_key() -> Seq<char> {
    seq!['c', 'r', 'e', 'a', 't', 'e', 'd']
}

/// `sources`
pub open spec fn sources_key() -> Seq<char> {
    seq!['s', 'o', 'u', 'r', 'c', 'e', 's']
}

/// The view of an optional string argument.
pub open spec fn opt_view(o: Option<&str>) -> Option<Seq<char>> {
    match o {
        Some(s) => Some(s@),
        None => None,
    }
}

/// The day number of a document's `created` date, when it has one that
/// reads as `YYYY-MM-DD`.
pub open spec fn created_days(doc: Document) -> Option<i32> {
    match fm_lookup(doc.frontmatter@, created_key()) {
        Some(v) => ymd_days(display(v@)),
        None => None,
    }
}

/// Whether a document passes every given filter (AND logic): its collection,
/// a tag (ignoring case), a string `status` field, a `created` date on or
/// after the given `YYYY-MM-DD` date (a date that does not parse filters
/// nothing), and the presence of a `sources` field.
pub open spec fn query_matches(
    doc: Document,
    collection: Option<Seq<char>>,
    tag: Option<Seq<char>>,
    status: Option<Seq<char>>,
    created_after: Option<Seq<char>>,
    has_sources: bool,
) -> bool {
    &&& (collection matches Some(c) ==> doc.collection@ == c)
    &&& (tag matches Some(t) ==> exists|i: int|
        0 <= i < doc.tags@.len() && lowercase(doc.tags@[i]@) == lowercase(t))
    &&& (status matches Some(s) ==> match fm_lookup(doc.frontmatter@, status_key()) {
        Some(v) => v@ == FmView::Str(s),
        None => false,
    })
    &&& (created_after matches Some(a) ==> match ymd_days(a) {
        Some(after) => match created_days(doc) {
            Some(d) => d >= after,
            None => false,
        },
        None => true,
    })
    &&& (has_sources ==> fm_lookup(doc.frontmatter@, sources_key()) is Some)
}

/// The tag filter looks at every tag: with only a tag filter, a document
/// matches exactly when one of its tags, at any position, equals the tag
/// ignoring case (both lower-cased).
pub proof fn lemma_tag_filter(doc: Document, t: Seq<char>)
    ensures
        forall|k: int|
            0 <= k < doc.tags@.len() && lowercase((#[trigger] doc.tags@[k])@) == lowercase(t) ==> query_matches(
                doc,
                None,
                Some(t),
                None,
                None,
                false,
            ),
        query_matches(doc, None, Some(t), None, None, false) ==> exists|k: int|
            0 <= k < doc.tags@.len() && lowercase((#[trigger] doc.tags@[k])@) == lowercase(t),
{
}

fn key_chars(k: &str) -> (r: Vec<char>)
    ensures
        r@ == k@,
{
    chars_of(k)
}

/// Checks whether a document matches all query filters (AND logic).
pub fn matches_query(
    doc: &Document,
    collection: Option<&str>,
    tag: Option<&str>,
    status: Option<&str>,
    created_after: Option<&str>,
    has_sources: bool,
) -> (r: bool)
    ensures
        r == query_matches(
            *doc,
            opt_view(collection),
            opt_view(tag),
            opt_view(status),
            opt_view(created_after),
            has_sources,
        ),
{
    if let Some(c) = collection {
        let dc = chars_of(doc.collection.as_str());
        let cc = chars_of(c);
        if !chars_eq(dc.as_slice(), cc.as_slice()) {
            return false;
        }
    }
    if let Some(t) = tag {
        let tl = to_lowercase(t);
        let tlc = chars_of(tl.as_str());
        let mut found = false;
        let mut i: usize = 0;
        while i < doc.tags.len()
            invariant
                i <= doc.tags@.len(),
                tlc@ == lowercase(t@),
                found == exists|j: int| 0 <= j < i && lowercase(doc.tags@[j]@) == lowercase(t@),
            decreases doc.tags.len() - i,
        {
            let dl = to_lowercase(doc.tags[i].as_str());
            let dlc = chars_of(dl.as_str());
            if chars_eq(dlc.as_slice(), tlc.as_slice()) {
                found = true;
            }
            i = i + 1;
        }
        if !found {
            return false;
        }
    }
    if let Some(s) = status {
        let key = key_chars("status");
        proof {
            reveal_strlit("status");
        }
        assert(key@ =~= status_key());
        let ok = match fm_get(&doc.frontmatter, key.as_slice()) {
            Some(FmValue::Str(v)) => {
                let vc = chars_of(v.as_str());
                let sc = chars_of(s);
                chars_eq(vc.as_slice(), sc.as_slice())
            },
            _ => false,
        };
        if !ok {
            return false;
        }
    }
    if let Some(a) = created_after {
        if let Some(after) = parse_ymd(a) {
            let key = key_chars("created");
            proof {
                reveal_strlit("created");
            }
            assert(key@ =~= created_key());
            let ok = match fm_get(&doc.frontmatter, key.as_slice()) {
                Some(v) => {
                    let text = yaml_value_to_string(v);
                    match parse_ymd(text.as_str()) {
                        Some(d) => d >= after,
                        None => false,
                    }
                },
                None => false,
            };
            if !ok {
                return false;
            }
        }
    }
    if has_sources {
        let key = key_chars("sources");
        proof {
            reveal_strlit("sources");
        }
        assert(key@ =~= sources_key());
        if fm_get(&doc.frontmatter, key.as_slice()).is_none() {
            return false;
        }
    }
    true
}

} // verus!
