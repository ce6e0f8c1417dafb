//! The vault export: one markdown text holding every exported document,
//! each under a frontmatter header.

use vstd::prelude::*;
use crate::format::{display, yaml_value_to_string};
use crate::text::push_str;
use crate::types::Document;
use crate::yaml::{fm_views, FmView};

verus! {

/// The first line of an export and the blank line after it.
pub open spec fn export_header(filter: Option<Seq<char>>, today: Seq<char>) -> Seq<char> {
    match filter {
        Some(c) => "# Vault Export: "@ + c + " ("@ + today + ")\n\n"@,
        None => "# Vault Export ("@ + today + ")\n\n"@,
    }
}

/// One `key: value` line per frontmatter field, in order.
pub open spec fn fm_lines(fm: Seq<(Seq<char>, FmView)>) -> Seq<char>
    decreases fm.len(),
{
    if fm.len() == 0 {
        Seq::empty()
    } else {
        fm_lines(fm.drop_last()) + fm.last().0 + ": "@ + display(fm.last().1) + "\n"@
    }
}

/// The part of an export for one document and its body.
pub open spec fn export_entry(d: Document, body: Seq<char>) -> Seq<char> {
    "---\n"@ + "## "@ + d.path@ + "\n"@ + fm_lines(fm_views(d.frontmatter@)) + "---\n\n"@ + body + "\n\n"@
}

/// The parts of an export for the documents, in order.
pub open spec fn export_entries(items: Seq<(Document, Seq<char>)>) -> Seq<char>
    decreases items.len(),
{
    if items.len() == 0 {
        Seq::empty()
    } else {
        export_entries(items.drop_last()) + export_entry(items.last().0, items.last().1)
    }
}

/// The views of (document, body) pairs.
pub open spec fn item_views(items: Seq<(&Document, String)>) -> Seq<(Document, Seq<char>)> {
    items.map_values(|it: (&Document, String)| (*it.0, it.1@))
}

fn push_fm_lines(out: &mut String, d: &Document)
    ensures
        final(out)@ == old(out)@ + fm_lines(fm_views(d.frontmatter@)),
{
    let mut i: usize = 0;
    while i < d.frontmatter.len()
        invariant
            i <= d.frontmatter@.len(),
            out@ == old(out)@ + fm_lines(fm_views(d.frontmatter@).take(i as int)),
        decreases d.frontmatter.len() - i,
    {
        let e = &d.frontmatter[i];
        let ghost pre = fm_views(d.frontmatter@).take(i as int);
        let ghost post = fm_views(d.frontmatter@).take(i + 1);
        assert(post.drop_last() =~= pre);
        assert(post.last() == (e.key@, e.value@));
        push_str(out, e.key.as_str());
        push_str(out, ": ");
        let v = yaml_value_to_string(&e.value);
        push_str(out, v.as_str());
        push_str(out, "\n");
        assert(out@ =~= old(out)@ + fm_lines(post));
        i = i + 1;
    }
    assert(fm_views(d.frontmatter@).take(d.frontmatter@.len() as int) =~= fm_views(d.frontmatter@));
}

/// Builds an export: a header naming the collection filter, if any, and
/// `today`'s date (`YYYY-MM-DD`), then for each (document, body) pair a
/// `---` block with the document's path and frontmatter, followed by the body.
pub fn format_export(docs_with_bodies: &Vec<(&Document, String)>, collection_filter: Option<&str>, today: &str) -> (r: String)
    ensures
        r@ == export_header(crate::query::opt_view(collection_filter), today@) + export_entries(
            item_views(docs_with_bodies@),
        ),
{
    let mut out = String::new();
    match collection_filter {
        Some(c) => {
            push_str(&mut out, "# Vault Export: ");
            push_str(&mut out, c);
            push_str(&mut out, " (");
            push_str(&mut out, today);
            push_str(&mut out, ")\n\n");
        },
        None => {
            push_str(&mut out, "# Vault Export (");
            push_str(&mut out, today);
            push_str(&mut out, ")\n\n");
        },
    }
    let ghost header = out@;
    assert(header =~= export_header(crate::query::opt_view(collection_filter), today@));
    let mut i: usize = 0;
    while i < docs_with_bodies.len()
        invariant
            i <= docs_with_bodies@.len(),
            out@ == header + export_entries(item_views(docs_with_bodies@).take(i as int)),
        decreases docs_with_bodies.len() - i,
    {
        let (d, body) = &docs_with_bodies[i];
        let ghost pre = item_views(docs_with_bodies@).take(i as int);
        let ghost post = item_views(docs_with_bodies@).take(i + 1);
        assert(post.drop_last() =~= pre);
        assert(post.last() == (**d, body@));
        let ghost before = out@;
        push_str(&mut out, "---\n");
        push_str(&mut out, "## ");
        push_str(&mut out, d.path.as_str());
        push_str(&mut out, "\n");
        push_fm_lines(&mut out, d);
        push_str(&mut out, "---\n\n");
        push_str(&mut out, body.as_str());
        push_str(&mut out, "\n\n");
        assert(out@ =~= before + export_entry(**d, body@));
        i = i + 1;
    }
    assert(item_views(docs_with_bodies@).take(docs_with_bodies@.len() as int) =~= item_views(docs_with_bodies@));
    out
}

} // verus!
