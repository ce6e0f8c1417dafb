//! Core domain types shared across modules.
//!
//! These are the in-memory representations built during indexing, kept
//! separate from the configuration types and from the output records.

use vstd::prelude::*;

verus! {

/// Section name given to documents that sit directly at a collection root,
/// so that every section-shaped view (listing, digest, scope filter) includes
/// them.
pub const ROOT_SECTION: &'static str = "(root)";

/// The characters of `ROOT_SECTION`.
pub open spec fn root_section() -> Seq<char> {
    seq!['(', 'r', 'o', 'o', 't', ')']
}

/// A frontmatter value, reduced to what the library reads of it.
///
/// `Other` covers every value that is neither a string, a boolean, an integer
/// that fits `i64` nor null: floats, sequences, mappings and tagged values.
/// It carries the text that the value is displayed as and its JSON encoding.
#[derive(Debug, Clone)]
pub enum FmValue {
    Str(String),
    Bool(bool),
    Int(i64),
    Null,
    Other { display: String, json: String },
}

/// One frontmatter field.
#[derive(Debug, Clone)]
pub struct FrontmatterEntry {
    pub key: String,
    pub value: FmValue,
}

/// A parsed markdown document, held in the `Index` for the lifetime of the
/// process.
#[derive(Debug, Clone)]
pub struct Document {
    /// Path relative to the collection root (e.g. "concepts/mcp-server-pattern.md").
    pub path: String,
    /// Extracted from the first H1 heading, falling back to the file stem.
    pub title: String,
    pub tags: Vec<String>,
    /// Markdown body with frontmatter stripped.
    pub body: String,
    /// First directory component, or `ROOT_SECTION` for loose root files.
    pub section: String,
    /// Which collection this document belongs to.
    pub collection: String,
    /// All frontmatter fields, in key order.
    pub frontmatter: Vec<FrontmatterEntry>,
}

/// Derived from document counts and the configured section descriptions.
#[derive(Debug, Clone)]
pub struct Section {
    pub name: String,
    pub description: String,
    pub doc_count: usize,
    pub collection: String,
}

/// The value of the first frontmatter field named `key`.
pub open spec fn fm_lookup(fm: Seq<FrontmatterEntry>, key: Seq<char>) -> Option<FmValue>
    decreases fm.len(),
{
    if fm.len() == 0 {
        None
    } else if fm[0].key@ == key {
        Some(fm[0].value)
    } else {
        fm_lookup(fm.drop_first(), key)
    }
}

/// Looks up the first frontmatter field named `key`.
pub fn fm_get<'a>(fm: &'a Vec<FrontmatterEntry>, key: &[char]) -> (r: Option<&'a FmValue>)
    ensures
        match r {
            Some(v) => fm_lookup(fm@, key@) == Some(*v),
            None => fm_lookup(fm@, key@) is None,
        },
{
    let mut i: usize = 0;
    assert(fm@.skip(0) =~= fm@);
    while i < fm.len()
        invariant
            i <= fm.len(),
            fm_lookup(fm@, key@) == fm_lookup(fm@.skip(i as int), key@),
        decreases fm.len() - i,
    {
        let ghost rest = fm@.skip(i as int);
        let k = crate::text::chars_of(fm[i].key.as_str());
        if crate::text::chars_eq(k.as_slice(), key) {
            return Some(&fm[i].value);
        }
        assert(rest.drop_first() =~= fm@.skip(i + 1));
        i = i + 1;
    }
    None
}

} // verus!
