//! Output records for every tool and command, and the summaries, digests,
//! exports and health reports built from documents.
//!
//! The records are serialised to JSON at the application's edge; this module
//! decides what goes into them.

use vstd::prelude::*;
use crate::text::{
    chars_of, decimal_i64, decimal_int, has_prefix, is_blank, is_blank_exec, join, join_exec,
    lines, lines_exec, push_chars, starts_with, string_of, views,
};
use crate::types::{Document, FmValue, FrontmatterEntry, Section};
use crate::yaml::{fm_views, FmView};

verus! {

// ---------------------------------------------------------------------------
// Frontmatter values as text
// ---------------------------------------------------------------------------

/// The text a frontmatter value is displayed as: strings as they are,
/// booleans as `true`/`false`, integers in decimal, null as `null`, and
/// anything else as its display text.
pub open spec fn display(v: FmView) -> Seq<char> {
    match v {
        FmView::Str(s) => s,
        FmView::Bool(b) => if b {
            seq!['t', 'r', 'u', 'e']
        } else {
            seq!['f', 'a', 'l', 's', 'e']
        },
        FmView::Int(i) => decimal_int(i as int),
        FmView::Null => seq!['n', 'u', 'l', 'l'],
        FmView::Other(d, _) => d,
    }
}

/// Converts a frontmatter value to its display string.
pub fn yaml_value_to_string(v: &FmValue) -> (r: String)
    ensures
        r@ == display(v@),
{
    match v {
        FmValue::Str(s) => s.clone(),
        FmValue::Bool(b) => {
            if *b {
                let c = chars_of("true");
                proof {
                    reveal_strlit("true");
                }
                assert(c@ =~= seq!['t', 'r', 'u', 'e']);
                string_of(c.as_slice())
            } else {
                let c = chars_of("false");
                proof {
                    reveal_strlit("false");
                }
                assert(c@ =~= seq!['f', 'a', 'l', 's', 'e']);
                string_of(c.as_slice())
            }
        },
        FmValue::Int(i) => decimal_i64(*i),
        FmValue::Null => {
            let c = chars_of("null");
            proof {
                reveal_strlit("null");
            }
            assert(c@ =~= seq!['n', 'u', 'l', 'l']);
            string_of(c.as_slice())
        },
        FmValue::Other { display, json: _ } => display.clone(),
    }
}

// ---------------------------------------------------------------------------
// Summaries
// ---------------------------------------------------------------------------

/// The position of the first line starting with `# ` at or after `i`.
pub open spec fn heading_from(ls: Seq<Seq<char>>, i: int) -> Option<int>
    decreases ls.len() - i,
{
    if i < 0 || i >= ls.len() {
        None
    } else if has_prefix(ls[i], seq!['#', ' ']) {
        Some(i)
    } else {
        heading_from(ls, i + 1)
    }
}

/// The first position at or after `i` whose line is not blank.
pub open spec fn skip_blank(ls: Seq<Seq<char>>, i: int) -> int
    decreases ls.len() - i,
{
    if i < 0 || i >= ls.len() {
        if i < 0 {
            0
        } else {
            i
        }
    } else if is_blank(ls[i]) {
        skip_blank(ls, i + 1)
    } else {
        i
    }
}

/// The first position at or after `i` whose line is blank.
pub open spec fn paragraph_end(ls: Seq<Seq<char>>, i: int) -> int
    decreases ls.len() - i,
{
    if i < 0 || i >= ls.len() {
        if i < 0 {
            0
        } else {
            i
        }
    } else if is_blank(ls[i]) {
        i
    } else {
        paragraph_end(ls, i + 1)
    }
}

/// The paragraph (lines up to the next blank one) starting at `i`, joined
/// with newlines.
pub open spec fn paragraph_at(ls: Seq<Seq<char>>, i: int) -> Seq<char> {
    join(ls.subrange(i, paragraph_end(ls, i)), seq!['\n'])
}

/// The first paragraph after the first H1 heading, or the first non-blank
/// paragraph when there is no heading.
pub open spec fn summary_of(body: Seq<char>) -> Seq<char> {
    let ls = lines(body);
    match heading_from(ls, 0) {
        Some(h) => paragraph_at(ls, skip_blank(ls, h + 1)),
        None => paragraph_at(ls, skip_blank(ls, 0)),
    }
}

/// The paragraph starting at line `start`: the lines up to the next blank
/// one, joined with newlines.
pub fn collect_paragraph(ls: &Vec<Vec<char>>, start: usize) -> (r: String)
    requires
        start <= ls.len(),
    ensures
        r@ == paragraph_at(views(ls@), start as int),
{
    let ghost v = views(ls@);
    let mut e = start;
    while e < ls.len() && !is_blank_exec(ls[e].as_slice())
        invariant
            start <= e <= ls.len(),
            v == views(ls@),
            paragraph_end(v, start as int) == paragraph_end(v, e as int),
        decreases ls.len() - e,
    {
        assert(v[e as int] == ls@[e as int]@);
        e = e + 1;
    }
    proof {
        if e < ls.len() {
            assert(v[e as int] == ls@[e as int]@);
        }
    }
    let mut part: Vec<Vec<char>> = Vec::new();
    let mut k = start;
    while k < e
        invariant
            start <= k <= e <= ls.len(),
            v == views(ls@),
            views(part@) == v.subrange(start as int, k as int),
        decreases e - k,
    {
        let line = crate::text::slice_chars(ls[k].as_slice(), 0, ls[k].len());
        assert(line@ =~= ls@[k as int]@);
        let ghost prev = views(part@);
        part.push(line);
        assert(views(part@) =~= prev.push(v[k as int]));
        k = k + 1;
        assert(views(part@) =~= v.subrange(start as int, k as int));
    }
    let mut nl: Vec<char> = Vec::new();
    nl.push('\n');
    assert(nl@ =~= seq!['\n']);
    join_exec(&part, nl.as_slice())
}

fn skip_blank_exec(ls: &Vec<Vec<char>>, from: usize) -> (r: usize)
    requires
        from <= ls.len(),
    ensures
        r == skip_blank(views(ls@), from as int),
        r <= ls.len(),
{
    let ghost v = views(ls@);
    let mut i = from;
    while i < ls.len() && is_blank_exec(ls[i].as_slice())
        invariant
            from <= i <= ls.len(),
            v == views(ls@),
            skip_blank(v, from as int) == skip_blank(v, i as int),
        decreases ls.len() - i,
    {
        assert(v[i as int] == ls@[i as int]@);
        i = i + 1;
    }
    proof {
        if i < ls.len() {
            assert(v[i as int] == ls@[i as int]@);
        }
    }
    i
}

/// Extracts the first paragraph after the H1 heading as a summary, falling
/// back to the first non-empty paragraph when there is no H1. This gives a
/// meaningful preview of a document without its full body.
pub fn extract_summary(body: &str) -> (r: String)
    ensures
        r@ == summary_of(body@),
{
    let cs = chars_of(body);
    let ls = lines_exec(cs.as_slice());
    let ghost v = views(ls@);
    let mut h: Vec<char> = Vec::new();
    h.push('#');
    h.push(' ');
    assert(h@ =~= seq!['#', ' ']);
    let mut i: usize = 0;
    while i < ls.len()
        invariant
            i <= ls.len(),
            v == views(ls@),
            v == lines(body@),
            h@ == seq!['#', ' '],
            heading_from(v, 0) == heading_from(v, i as int),
        decreases ls.len() - i,
    {
        assert(v[i as int] == ls@[i as int]@);
        if starts_with(ls[i].as_slice(), h.as_slice()) {
            assert(heading_from(v, i as int) == Some(i as int));
            assert(v == lines(body@));
            let s = skip_blank_exec(&ls, i + 1);
            let r = collect_paragraph(&ls, s);
            assert(r@ == paragraph_at(lines(body@), skip_blank(lines(body@), i + 1)));
            return r;
        }
        i = i + 1;
    }
    assert(heading_from(v, i as int) is None);
    let s = skip_blank_exec(&ls, 0);
    collect_paragraph(&ls, s)
}

// ---------------------------------------------------------------------------
// Simple output records
// ---------------------------------------------------------------------------

/// A section as listed.
pub struct SectionOutput {
    pub name: String,
    pub description: String,
    pub doc_count: usize,
    pub collection: String,
}

/// A document's metadata, with its content when asked for.
pub struct DocumentOutput {
    pub path: String,
    pub title: String,
    pub tags: Vec<String>,
    pub section: String,
    pub collection: String,
    pub content: Option<String>,
}

/// A token-efficient briefing: metadata, frontmatter and summary.
pub struct ContextOutput {
    pub path: String,
    pub title: String,
    pub tags: Vec<String>,
    pub section: String,
    pub collection: String,
    pub frontmatter: Vec<FrontmatterEntry>,
    pub summary: String,
}

/// The record of a written document.
pub struct WriteOutput {
    pub path: String,
    pub collection: String,
    pub title: String,
    pub tags: Vec<String>,
}

/// The documents that matched a query, without bodies.
pub struct QueryOutput {
    pub total: usize,
    pub documents: Vec<QueryDocumentOutput>,
}

/// One document of a query result.
pub struct QueryDocumentOutput {
    pub path: String,
    pub title: String,
    pub tags: Vec<String>,
    pub section: String,
    pub collection: String,
}

/// The views of a sequence of strings.
pub open spec fn strs(v: Seq<String>) -> Seq<Seq<char>> {
    v.map_values(|s: String| s@)
}

/// Copies a list of strings.
pub fn copy_strings(v: &Vec<String>) -> (r: Vec<String>)
    ensures
        strs(r@) == strs(v@),
{
    let mut r: Vec<String> = Vec::new();
    let mut i: usize = 0;
    while i < v.len()
        invariant
            i <= v@.len(),
            strs(r@) == strs(v@).take(i as int),
        decreases v.len() - i,
    {
        let ghost prev = strs(r@);
        let c = v[i].clone();
        r.push(c);
        assert(strs(r@) =~= prev.push(v@[i as int]@));
        i = i + 1;
        assert(strs(r@) =~= strs(v@).take(i as int));
    }
    assert(strs(v@).take(v@.len() as int) =~= strs(v@));
    r
}

/// Copies a frontmatter value.
pub fn copy_value(v: &FmValue) -> (r: FmValue)
    ensures
        r@ == v@,
{
    match v {
        FmValue::Str(s) => FmValue::Str(s.clone()),
        FmValue::Bool(b) => FmValue::Bool(*b),
        FmValue::Int(i) => FmValue::Int(*i),
        FmValue::Null => FmValue::Null,
        FmValue::Other { display, json } => FmValue::Other {
            display: display.clone(),
            json: json.clone(),
        },
    }
}

/// Copies frontmatter entries.
pub fn copy_frontmatter(fm: &Vec<FrontmatterEntry>) -> (r: Vec<FrontmatterEntry>)
    ensures
        fm_views(r@) == fm_views(fm@),
{
    let mut r: Vec<FrontmatterEntry> = Vec::new();
    let mut i: usize = 0;
    while i < fm.len()
        invariant
            i <= fm@.len(),
            fm_views(r@) == fm_views(fm@).take(i as int),
        decreases fm.len() - i,
    {
        let ghost prev = fm_views(r@);
        let e = FrontmatterEntry { key: fm[i].key.clone(), value: copy_value(&fm[i].value) };
        r.push(e);
        assert(fm_views(r@) =~= prev.push((fm@[i as int].key@, fm@[i as int].value@)));
        i = i + 1;
        assert(fm_views(r@) =~= fm_views(fm@).take(i as int));
    }
    assert(fm_views(fm@).take(fm@.len() as int) =~= fm_views(fm@));
    r
}

/// The listing of sections.
pub fn format_sections(sections: &Vec<Section>) -> (r: Vec<SectionOutput>)
    ensures
        r@.len() == sections@.len(),
        forall|i: int|
            #![trigger r@[i]]
            0 <= i < r@.len() ==> r@[i].name@ == sections@[i].name@ && r@[i].description@
                == sections@[i].description@ && r@[i].doc_count == sections@[i].doc_count
                && r@[i].collection@ == sections@[i].collection@,
{
    let mut r: Vec<SectionOutput> = Vec::new();
    let mut i: usize = 0;
    while i < sections.len()
        invariant
            i <= sections@.len(),
            r@.len() == i,
            forall|k: int|
                #![trigger r@[k]]
                0 <= k < i ==> r@[k].name@ == sections@[k].name@ && r@[k].description@
                    == sections@[k].description@ && r@[k].doc_count == sections@[k].doc_count
                    && r@[k].collection@ == sections@[k].collection@,
        decreases sections.len() - i,
    {
        let s = &sections[i];
        r.push(
            SectionOutput {
                name: s.name.clone(),
                description: s.description.clone(),
                doc_count: s.doc_count,
                collection: s.collection.clone(),
            },
        );
        i = i + 1;
    }
    r
}

/// A document's metadata, with its body as content when `include_content`.
pub fn format_document(doc: &Document, include_content: bool) -> (r: DocumentOutput)
    ensures
        r.path@ == doc.path@,
        r.title@ == doc.title@,
        strs(r.tags@) == strs(doc.tags@),
        r.section@ == doc.section@,
        r.collection@ == doc.collection@,
        match r.content {
            Some(c) => include_content && c@ == doc.body@,
            None => !include_content,
        },
{
    DocumentOutput {
        path: doc.path.clone(),
        title: doc.title.clone(),
        tags: copy_strings(&doc.tags),
        section: doc.section.clone(),
        collection: doc.collection.clone(),
        content: if include_content {
            Some(doc.body.clone())
        } else {
            None
        },
    }
}

/// A token-efficient briefing of a document: metadata, all frontmatter
/// fields and the summary of its body.
pub fn format_context(doc: &Document) -> (r: ContextOutput)
    ensures
        r.path@ == doc.path@,
        r.title@ == doc.title@,
        strs(r.tags@) == strs(doc.tags@),
        r.section@ == doc.section@,
        r.collection@ == doc.collection@,
        fm_views(r.frontmatter@) == fm_views(doc.frontmatter@),
        r.summary@ == summary_of(doc.body@),
{
    ContextOutput {
        path: doc.path.clone(),
        title: doc.title.clone(),
        tags: copy_strings(&doc.tags),
        section: doc.section.clone(),
        collection: doc.collection.clone(),
        frontmatter: copy_frontmatter(&doc.frontmatter),
        summary: extract_summary(doc.body.as_str()),
    }
}

/// The record of a written document.
pub fn format_write(path: &str, collection: &str, title: &str, tags: &Vec<String>) -> (r: WriteOutput)
    ensures
        r.path@ == path@,
        r.collection@ == collection@,
        r.title@ == title@,
        strs(r.tags@) == strs(tags@),
{
    WriteOutput {
        path: string_of(chars_of(path).as_slice()),
        collection: string_of(chars_of(collection).as_slice()),
        title: string_of(chars_of(title).as_slice()),
        tags: copy_strings(tags),
    }
}

/// Query results: document metadata without body content.
pub fn format_query(docs: &Vec<&Document>) -> (r: QueryOutput)
    ensures
        r.total == docs@.len(),
        r.documents@.len() == docs@.len(),
        forall|i: int|
            #![trigger r.documents@[i]]
            0 <= i < docs@.len() ==> {
                &&& r.documents@[i].path@ == docs@[i].path@
                &&& r.documents@[i].title@ == docs@[i].title@
                &&& strs(r.documents@[i].tags@) == strs(docs@[i].tags@)
                &&& r.documents@[i].section@ == docs@[i].section@
                &&& r.documents@[i].collection@ == docs@[i].collection@
            },
{
    let mut documents: Vec<QueryDocumentOutput> = Vec::new();
    let mut i: usize = 0;
    while i < docs.len()
        invariant
            i <= docs@.len(),
            documents@.len() == i,
            forall|k: int|
                #![trigger documents@[k]]
                0 <= k < i ==> {
                    &&& documents@[k].path@ == docs@[k].path@
                    &&& documents@[k].title@ == docs@[k].title@
                    &&& strs(documents@[k].tags@) == strs(docs@[k].tags@)
                    &&& documents@[k].section@ == docs@[k].section@
                    &&& documents@[k].collection@ == docs@[k].collection@
                },
        decreases docs.len() - i,
    {
        let d = docs[i];
        documents.push(
            QueryDocumentOutput {
                path: d.path.clone(),
                title: d.title.clone(),
                tags: copy_strings(&d.tags),
                section: d.section.clone(),
                collection: d.collection.clone(),
            },
        );
        i = i + 1;
    }
    QueryOutput { total: documents.len(), documents }
}

} // verus!
