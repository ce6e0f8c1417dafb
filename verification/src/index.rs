//! Document parsing and the in-memory document index.
//!
//! Each markdown file is parsed into a `Document`: YAML frontmatter between
//! `---` lines, the body that follows, a title from the first H1 heading
//! (falling back to the file stem), and a section from the first directory
//! component (or `ROOT_SECTION` for files at the collection root). Sections
//! are derived from document counts and enriched with the configured
//! descriptions. Reading the files from disk happens at the application's
//! edge; this module receives their relative paths and contents.

use vstd::prelude::*;
use crate::config::{ResolvedCollection, SectionDef};
use crate::hash_index::HashIndex;
use crate::order::{
    key_view, keys_view, lemma_tuple_irreflexive, lemma_tuple_total, lemma_tuple_transitive,
    tuple_less, tuple_lt,
};
use crate::store::{blake3_hash, hash_content, hex_of};
use crate::text::{
    chars_eq, chars_of, find, find_exec, has_prefix, lemma_find,
    lines, lines_exec, lowercase, occurs_at, push_chars, slice_chars, starts_with, string_of,
    to_lowercase, views,
};
use crate::paths::{lemma_components_nonempty, path_components, path_components_exec};
use crate::types::{root_section, Document, FrontmatterEntry, Section, ROOT_SECTION};
use crate::yaml::{fm_entries_of, fm_views, parse_yaml_frontmatter, tags_of};

verus! {

// ---------------------------------------------------------------------------
// Frontmatter
// ---------------------------------------------------------------------------

/// `---`
pub open spec fn fence() -> Seq<char> {
    seq!['-', '-', '-']
}

/// `\n---`
pub open spec fn closing_fence() -> Seq<char> {
    seq!['\n', '-', '-', '-']
}

/// The frontmatter text and what follows its closing fence, when the content
/// starts with `---` and a later line starts with `---`.
pub open spec fn frontmatter_split(content: Seq<char>) -> Option<(Seq<char>, Seq<char>)> {
    if has_prefix(content, fence()) {
        let after = content.skip(3);
        match find(after, closing_fence()) {
            Some(e) => Some((after.take(e), after.skip(e + 4))),
            None => None,
        }
    } else {
        None
    }
}

/// `trim_start_matches('\n')`.
pub open spec fn trim_leading_newlines(s: Seq<char>) -> Seq<char>
    decreases s.len(),
{
    if s.len() > 0 && s[0] == '\n' {
        trim_leading_newlines(s.drop_first())
    } else {
        s
    }
}

/// The body of a document: the content with its frontmatter block (and the
/// newlines right after it) removed, or the whole content when there is none.
pub open spec fn body_of(content: Seq<char>) -> Seq<char> {
    match frontmatter_split(content) {
        Some((_, rest)) => trim_leading_newlines(rest),
        None => content,
    }
}

fn trim_leading_newlines_exec(s: &[char], from: usize) -> (r: Vec<char>)
    requires
        from <= s.len(),
    ensures
        r@ == trim_leading_newlines(s@.skip(from as int)),
{
    let mut i = from;
    while i < s.len() && s[i] == '\n'
        invariant
            from <= i <= s.len(),
            trim_leading_newlines(s@.skip(from as int)) == trim_leading_newlines(s@.skip(i as int)),
        decreases s.len() - i,
    {
        assert(s@.skip(i as int).drop_first() =~= s@.skip(i + 1));
        i = i + 1;
    }
    let r = slice_chars(s, i, s.len());
    assert(r@ =~= s@.skip(i as int));
    r
}

/// Where the frontmatter text ends inside `content`: `(3, 3 + e)` for the
/// text `content[3..3 + e]`, with the body following at `3 + e + 4`.
fn frontmatter_bounds(cs: &Vec<char>) -> (r: Option<usize>)
    ensures
        match r {
            Some(e) => frontmatter_split(cs@) == Some(
                (cs@.subrange(3, 3 + e as int), cs@.skip(3 + e + 4)),
            ) && 3 + e + 4 <= cs@.len(),
            None => frontmatter_split(cs@) is None,
        },
{
    let mut f: Vec<char> = Vec::new();
    f.push('-');
    f.push('-');
    f.push('-');
    assert(f@ =~= fence());
    if !starts_with(cs.as_slice(), f.as_slice()) {
        return None;
    }
    let after = slice_chars(cs.as_slice(), 3, cs.len());
    assert(after@ =~= cs@.skip(3));
    let mut c: Vec<char> = Vec::new();
    c.push('\n');
    c.push('-');
    c.push('-');
    c.push('-');
    assert(c@ =~= closing_fence());
    match find_exec(after.as_slice(), c.as_slice()) {
        Some(e) => {
            proof {
                lemma_find(after@, closing_fence());
            }
            assert(after@.take(e as int) =~= cs@.subrange(3, 3 + e as int));
            assert(after@.skip(e + 4) =~= cs@.skip(3 + e + 4));
            Some(e)
        },
        None => None,
    }
}

/// Strips the YAML frontmatter from document content, leaving the body.
pub fn strip_frontmatter(content: &str) -> (r: String)
    ensures
        r@ == body_of(content@),
{
    let cs = chars_of(content);
    match frontmatter_bounds(&cs) {
        Some(e) => {
            let n = cs.len();
            assert(3 + e + 4 <= n);
            let b = trim_leading_newlines_exec(cs.as_slice(), 3 + e + 4);
            string_of(b.as_slice())
        },
        None => string_of(cs.as_slice()),
    }
}

/// Parses YAML frontmatter delimited by `---`: all fields (for context
/// output), the extracted tags, and the body with the frontmatter stripped.
/// Missing or malformed frontmatter gives no fields and no tags.
pub fn parse_frontmatter(content: &str) -> (r: (Vec<FrontmatterEntry>, Vec<String>, String))
    ensures
        match frontmatter_split(content@) {
            Some((yaml, _)) => fm_views(r.0@) == fm_entries_of(yaml) && r.1@.map_values(
                |s: String| s@,
            ) == tags_of(yaml),
            None => r.0@.len() == 0 && r.1@.len() == 0,
        },
        r.2@ == body_of(content@),
{
    let cs = chars_of(content);
    match frontmatter_bounds(&cs) {
        Some(e) => {
            let n = cs.len();
            assert(3 + e + 4 <= n);
            let y = slice_chars(cs.as_slice(), 3, 3 + e);
            let ys = string_of(y.as_slice());
            let (fm, tags) = parse_yaml_frontmatter(ys.as_str());
            let b = trim_leading_newlines_exec(cs.as_slice(), 3 + e + 4);
            (fm, tags, string_of(b.as_slice()))
        },
        None => (Vec::new(), Vec::new(), string_of(cs.as_slice())),
    }
}

// ---------------------------------------------------------------------------
// Titles and sections
// ---------------------------------------------------------------------------

/// `# `
pub open spec fn heading_mark() -> Seq<char> {
    seq!['#', ' ']
}

/// `trim_start_matches("# ")`.
pub open spec fn strip_heading(l: Seq<char>) -> Seq<char>
    decreases l.len(),
{
    if l.len() >= 2 && has_prefix(l, heading_mark()) {
        strip_heading(l.skip(2))
    } else {
        l
    }
}

/// The first line that starts with `# `.
pub open spec fn first_heading(ls: Seq<Seq<char>>) -> Option<Seq<char>>
    decreases ls.len(),
{
    if ls.len() == 0 {
        None
    } else if has_prefix(ls[0], heading_mark()) {
        Some(ls[0])
    } else {
        first_heading(ls.drop_first())
    }
}

/// The text after the last `c` (all of `s` when there is none).
pub open spec fn after_last(s: Seq<char>, c: char) -> Seq<char>
    decreases s.len(),
{
    if s.len() == 0 {
        s
    } else if s.last() == c {
        Seq::empty()
    } else {
        after_last(s.drop_last(), c).push(s.last())
    }
}

/// The position of the last `c`.
pub open spec fn last_index(s: Seq<char>, c: char) -> Option<int>
    decreases s.len(),
{
    if s.len() == 0 {
        None
    } else if s.last() == c {
        Some(s.len() - 1)
    } else {
        last_index(s.drop_last(), c)
    }
}

/// `Path::file_stem` of a file name: the part before the last `.`, unless
/// that `.` is the first character.
pub open spec fn file_stem(name: Seq<char>) -> Seq<char> {
    match last_index(name, '.') {
        Some(k) => if k > 0 {
            name.take(k)
        } else {
            name
        },
        None => name,
    }
}

/// The title of a document: its first `# ` heading with the marks removed,
/// or else the stem of its file name.
pub open spec fn title_of(body: Seq<char>, rel_path: Seq<char>) -> Seq<char> {
    match first_heading(lines(body)) {
        Some(l) => strip_heading(l),
        None => file_stem(after_last(rel_path, '/')),
    }
}

/// The section of a document: the first component of its relative path when
/// the path has more than one component, or `ROOT_SECTION` for a file at the
/// collection root.
pub open spec fn section_of(rel_path: Seq<char>) -> Seq<char> {
    let cs = path_components(rel_path);
    if cs.len() > 1 {
        cs[0]
    } else {
        root_section()
    }
}

fn strip_heading_exec(l: &[char]) -> (r: Vec<char>)
    ensures
        r@ == strip_heading(l@),
{
    let mut h: Vec<char> = Vec::new();
    h.push('#');
    h.push(' ');
    assert(h@ =~= heading_mark());
    let mut i: usize = 0;
    let mut cur = slice_chars(l, 0, l.len());
    assert(cur@ =~= l@.skip(0));
    assert(l@.skip(0) =~= l@);
    while l.len() - i >= 2 && starts_with(cur.as_slice(), h.as_slice())
        invariant
            i <= l.len(),
            h@ == heading_mark(),
            cur@ == l@.skip(i as int),
            strip_heading(l@) == strip_heading(cur@),
        decreases l.len() - i,
    {
        i = i + 2;
        let next = slice_chars(l, i, l.len());
        assert(next@ =~= cur@.skip(2));
        cur = next;
    }
    cur
}

fn after_last_slash(p: &[char]) -> (r: Vec<char>)
    ensures
        r@ == after_last(p@, '/'),
{
    let mut i: usize = p.len();
    assert(p@.take(i as int) =~= p@);
    assert(p@.skip(i as int) =~= Seq::<char>::empty());
    assert(p@ + Seq::<char>::empty() =~= p@);
    while i > 0 && p[i - 1] != '/'
        invariant
            i <= p.len(),
            after_last(p@, '/') == after_last(p@.take(i as int), '/') + p@.skip(i as int),
        decreases i,
    {
        let ghost t = p@.take(i as int);
        assert(t.drop_last() =~= p@.take(i - 1));
        assert(p@.skip(i - 1) =~= seq![t.last()] + p@.skip(i as int));
        assert(after_last(t, '/') == after_last(t.drop_last(), '/').push(t.last()));
        assert(after_last(t.drop_last(), '/').push(t.last()) + p@.skip(i as int)
            =~= after_last(t.drop_last(), '/') + p@.skip(i - 1));
        i = i - 1;
    }
    if i > 0 {
        let ghost t = p@.take(i as int);
        assert(after_last(t, '/') =~= Seq::<char>::empty());
    } else {
        assert(p@.take(0) =~= Seq::<char>::empty());
    }
    let r = slice_chars(p, i, p.len());
    assert(r@ =~= Seq::<char>::empty() + p@.skip(i as int));
    r
}

fn file_stem_exec(name: &[char]) -> (r: Vec<char>)
    ensures
        r@ == file_stem(name@),
{
    let mut i: usize = name.len();
    assert(name@.take(i as int) =~= name@);
    while i > 0 && name[i - 1] != '.'
        invariant
            i <= name.len(),
            last_index(name@, '.') == last_index(name@.take(i as int), '.'),
        decreases i,
    {
        let ghost t = name@.take(i as int);
        assert(t.drop_last() =~= name@.take(i - 1));
        i = i - 1;
    }
    if i > 1 {
        let ghost t = name@.take(i as int);
        assert(last_index(t, '.') == Some(i - 1));
        let r = slice_chars(name, 0, i - 1);
        assert(r@ =~= name@.take(i - 1));
        r
    } else {
        proof {
            if i == 1 {
                let ghost t = name@.take(1);
                assert(last_index(t, '.') == Some(0int));
            } else {
                assert(name@.take(0) =~= Seq::<char>::empty());
            }
        }
        let r = slice_chars(name, 0, name.len());
        assert(r@ =~= name@);
        r
    }
}

fn title_exec(body: &str, rel_path: &str) -> (r: String)
    ensures
        r@ == title_of(body@, rel_path@),
{
    let b = chars_of(body);
    let ls = lines_exec(b.as_slice());
    let mut h: Vec<char> = Vec::new();
    h.push('#');
    h.push(' ');
    assert(h@ =~= heading_mark());
    let mut i: usize = 0;
    assert(views(ls@).skip(0) =~= views(ls@));
    while i < ls.len()
        invariant
            i <= ls.len(),
            h@ == heading_mark(),
            views(ls@) == lines(body@),
            first_heading(lines(body@)) == first_heading(views(ls@).skip(i as int)),
        decreases ls.len() - i,
    {
        let ghost rest = views(ls@).skip(i as int);
        assert(rest[0] == ls@[i as int]@);
        if starts_with(ls[i].as_slice(), h.as_slice()) {
            let s = strip_heading_exec(ls[i].as_slice());
            return string_of(s.as_slice());
        }
        assert(rest.drop_first() =~= views(ls@).skip(i + 1));
        i = i + 1;
    }
    let p = chars_of(rel_path);
    let name = after_last_slash(p.as_slice());
    let stem = file_stem_exec(name.as_slice());
    string_of(stem.as_slice())
}

fn section_exec(rel_path: &str) -> (r: String)
    ensures
        r@ == section_of(rel_path@),
{
    let cs = path_components_exec(rel_path);
    if cs.len() > 1 {
        assert(views(cs@)[0] == cs@[0]@);
        string_of(cs[0].as_slice())
    } else {
        let r = chars_of(ROOT_SECTION);
        proof {
            reveal_strlit("(root)");
        }
        assert(r@ =~= root_section());
        string_of(r.as_slice())
    }
}

/// `d` is the document parsed from `content` at `rel_path` in `collection`.
pub open spec fn parsed_as(d: Document, rel_path: Seq<char>, content: Seq<char>, collection: Seq<char>) -> bool {
    &&& d.path@ == rel_path
    &&& d.body@ == body_of(content)
    &&& d.title@ == title_of(body_of(content), rel_path)
    &&& d.section@ == section_of(rel_path)
    &&& d.collection@ == collection
    &&& match frontmatter_split(content) {
        Some((yaml, _)) => fm_views(d.frontmatter@) == fm_entries_of(yaml) && d.tags@.map_values(
            |s: String| s@,
        ) == tags_of(yaml),
        None => d.frontmatter@.len() == 0 && d.tags@.len() == 0,
    }
}

/// Parses one markdown file of a collection into a document.
pub fn parse_document(rel_path: &str, content: &str, collection_name: &str) -> (r: Document)
    ensures
        parsed_as(r, rel_path@, content@, collection_name@),
{
    let (frontmatter, tags, body) = parse_frontmatter(content);
    let title = title_exec(body.as_str(), rel_path);
    let section = section_exec(rel_path);
    let path = string_of(chars_of(rel_path).as_slice());
    let collection = string_of(chars_of(collection_name).as_slice());
    Document { path, title, tags, body, section, collection, frontmatter }
}

// ---------------------------------------------------------------------------
// Sections
// ---------------------------------------------------------------------------

/// The ordering key of a (collection, section) pair.
pub open spec fn pair_key(collection: Seq<char>, name: Seq<char>) -> Seq<Seq<char>> {
    seq![collection, name]
}

/// The number of documents of `collection` in section `name`.
pub open spec fn pair_count(docs: Seq<Document>, collection: Seq<char>, name: Seq<char>) -> nat
    decreases docs.len(),
{
    if docs.len() == 0 {
        0
    } else {
        pair_count(docs.drop_last(), collection, name) + if docs.last().collection@ == collection
            && docs.last().section@ == name {
            1nat
        } else {
            0nat
        }
    }
}

/// The number of documents with a non-empty section.
pub open spec fn sectioned_count(docs: Seq<Document>) -> nat
    decreases docs.len(),
{
    if docs.len() == 0 {
        0
    } else {
        sectioned_count(docs.drop_last()) + if docs.last().section@.len() > 0 {
            1nat
        } else {
            0nat
        }
    }
}

/// The sum of the document counts of sections.
pub open spec fn total_count(secs: Seq<Section>) -> nat
    decreases secs.len(),
{
    if secs.len() == 0 {
        0
    } else {
        total_count(secs.drop_last()) + (secs.last().doc_count as nat)
    }
}

/// The description of the last section definition with prefix `name`.
pub open spec fn desc_in(defs: Seq<SectionDef>, name: Seq<char>) -> Option<Seq<char>>
    decreases defs.len(),
{
    if defs.len() == 0 {
        None
    } else if defs.last().prefix@ == name {
        Some(defs.last().description@)
    } else {
        desc_in(defs.drop_last(), name)
    }
}

/// The configured description of section `name` of `collection`: the last
/// definition wins; empty when there is none.
pub open spec fn section_desc(colls: Seq<ResolvedCollection>, collection: Seq<char>, name: Seq<char>) -> Seq<char>
    decreases colls.len(),
{
    if colls.len() == 0 {
        Seq::empty()
    } else if colls.last().name@ == collection && desc_in(colls.last().sections@, name) is Some {
        desc_in(colls.last().sections@, name).unwrap()
    } else {
        section_desc(colls.drop_last(), collection, name)
    }
}

/// What `desc_in` finds comes from the last definition with that prefix;
/// when it finds nothing, no definition has that prefix.
proof fn lemma_desc_in_source(defs: Seq<SectionDef>, name: Seq<char>)
    ensures
        desc_in(defs, name) matches Some(x) ==> exists|k: int|
            0 <= k < defs.len() && (#[trigger] defs[k]).prefix@ == name && defs[k].description@ == x
                && forall|k2: int| k < k2 < defs.len() ==> (#[trigger] defs[k2]).prefix@ != name,
        desc_in(defs, name) is None ==> forall|k: int| 0 <= k < defs.len() ==> (#[trigger] defs[k]).prefix@ != name,
    decreases defs.len(),
{
    if defs.len() > 0 {
        let init = defs.drop_last();
        let last = defs.len() - 1;
        assert(defs[last] == defs.last());
        lemma_desc_in_source(init, name);
        if defs.last().prefix@ != name {
            if desc_in(init, name) is Some {
                let x = desc_in(init, name).unwrap();
                let k = choose|k: int|
                    0 <= k < init.len() && (#[trigger] init[k]).prefix@ == name && init[k].description@ == x
                        && forall|k2: int| k < k2 < init.len() ==> (#[trigger] init[k2]).prefix@ != name;
                assert(defs[k] == init[k]);
                assert forall|k2: int| k < k2 < defs.len() implies (#[trigger] defs[k2]).prefix@ != name by {
                    if k2 < init.len() {
                        assert(defs[k2] == init[k2]);
                    }
                }
            } else {
                assert forall|k: int| 0 <= k < defs.len() implies (#[trigger] defs[k]).prefix@ != name by {
                    if k < init.len() {
                        assert(defs[k] == init[k]);
                    }
                }
            }
        }
    }
}

/// A section's description belongs to its own collection: it is given by a
/// section definition with that prefix in a configured collection of that
/// name, the last such definition in configuration order; when no
/// collection of that name defines the prefix, it is empty (definitions of
/// other collections never supply it).
pub proof fn lemma_section_desc_own_collection(colls: Seq<ResolvedCollection>, collection: Seq<char>, name: Seq<char>)
    ensures
        (exists|i: int, k: int|
            #![trigger colls[i].sections@[k]]
            0 <= i < colls.len() && colls[i].name@ == collection && 0 <= k < colls[i].sections@.len()
                && colls[i].sections@[k].prefix@ == name && colls[i].sections@[k].description@
                == section_desc(colls, collection, name) && is_last_def(colls, collection, name, i, k))
        || ((forall|i: int, k: int|
            #![trigger colls[i].sections@[k]]
            0 <= i < colls.len() && colls[i].name@ == collection && 0 <= k < colls[i].sections@.len()
                ==> colls[i].sections@[k].prefix@ != name) && section_desc(colls, collection, name)
            == Seq::<char>::empty()),
    decreases colls.len(),
{
    if colls.len() > 0 {
        let init = colls.drop_last();
        let last = colls.last();
        let j = colls.len() - 1;
        assert(colls[j] == last);
        assert forall|i: int| 0 <= i < init.len() implies #[trigger] colls[i] == init[i] by {}
        lemma_desc_in_source(last.sections@, name);
        if last.name@ == collection && desc_in(last.sections@, name) is Some {
            let x = desc_in(last.sections@, name).unwrap();
            let k = choose|k: int|
                0 <= k < last.sections@.len() && (#[trigger] last.sections@[k]).prefix@ == name
                    && last.sections@[k].description@ == x
                    && forall|k2: int| k < k2 < last.sections@.len() ==> (#[trigger] last.sections@[k2]).prefix@ != name;
            assert(colls[j].sections@[k].prefix@ == name);
            assert(is_last_def(colls, collection, name, j, k));
        } else {
            lemma_section_desc_own_collection(init, collection, name);
            if exists|i: int, k: int|
                #![trigger init[i].sections@[k]]
                0 <= i < init.len() && init[i].name@ == collection && 0 <= k < init[i].sections@.len()
                    && init[i].sections@[k].prefix@ == name && init[i].sections@[k].description@
                    == section_desc(init, collection, name) && is_last_def(init, collection, name, i, k) {
                let (i, k) = choose|i: int, k: int|
                    #![trigger init[i].sections@[k]]
                    0 <= i < init.len() && init[i].name@ == collection && 0 <= k < init[i].sections@.len()
                        && init[i].sections@[k].prefix@ == name && init[i].sections@[k].description@
                        == section_desc(init, collection, name) && is_last_def(init, collection, name, i, k);
                assert(colls[i] == init[i]);
                assert(colls[i].sections@[k].prefix@ == name);
                assert forall|i2: int, k2: int|
                    (i < i2 < colls.len() || (i2 == i && k < k2)) && 0 <= k2 < colls[i2].sections@.len()
                        && colls[i2].name@ == collection implies #[trigger] colls[i2].sections@[k2].prefix@ != name by {
                    if i2 < init.len() {
                        assert(colls[i2] == init[i2]);
                        assert(init[i2].sections@[k2].prefix@ != name);
                    } else {
                        assert(i2 == j);
                        assert(last.sections@[k2].prefix@ != name);
                    }
                }
                assert(is_last_def(colls, collection, name, i, k));
            } else {
                assert forall|i: int, k: int|
                    0 <= i < colls.len() && colls[i].name@ == collection && 0 <= k < colls[i].sections@.len()
                        implies #[trigger] colls[i].sections@[k].prefix@ != name by {
                    if i < init.len() {
                        assert(colls[i] == init[i]);
                        assert(init[i].sections@[k].prefix@ != name);
                    } else {
                        assert(i == j);
                        assert(last.sections@[k].prefix@ != name);
                    }
                }
            }
        }
    }
}

/// No section definition with prefix `name` in a collection named
/// `collection` comes after definition `k` of collection `i`.
pub open spec fn is_last_def(colls: Seq<ResolvedCollection>, collection: Seq<char>, name: Seq<char>, i: int, k: int) -> bool {
    forall|i2: int, k2: int|
        (i < i2 < colls.len() || (i2 == i && k < k2)) && 0 <= k2 < colls[i2].sections@.len()
            && colls[i2].name@ == collection ==> #[trigger] colls[i2].sections@[k2].prefix@ != name
}

/// The sections of `docs`: one per (collection, section) pair that some
/// document with a non-empty section has, strictly ordered by
/// (collection, name), each with its document count and description.
pub open spec fn sections_of(
    secs: Seq<Section>,
    docs: Seq<Document>,
    colls: Seq<ResolvedCollection>,
) -> bool {
    &&& forall|i: int, j: int|
        0 <= i < j < secs.len() ==> tuple_lt(
            pair_key(secs[i].collection@, secs[i].name@),
            pair_key(secs[j].collection@, secs[j].name@),
        )
    &&& forall|i: int|
        #![trigger secs[i]]
        0 <= i < secs.len() ==> {
            &&& secs[i].name@.len() > 0
            &&& secs[i].doc_count == pair_count(docs, secs[i].collection@, secs[i].name@)
            &&& secs[i].doc_count > 0
            &&& secs[i].description@ == section_desc(colls, secs[i].collection@, secs[i].name@)
        }
    &&& forall|u: int|
        #![trigger docs[u]]
        0 <= u < docs.len() && docs[u].section@.len() > 0 ==> exists|i: int|
            0 <= i < secs.len() && secs[i].collection@ == docs[u].collection@ && secs[i].name@
                == docs[u].section@
}

proof fn lemma_pair_count_witness(docs: Seq<Document>, c: Seq<char>, n: Seq<char>)
    requires
        pair_count(docs, c, n) > 0,
    ensures
        exists|u: int| 0 <= u < docs.len() && docs[u].collection@ == c && docs[u].section@ == n,
    decreases docs.len(),
{
    if docs.last().collection@ == c && docs.last().section@ == n {
        assert(docs[docs.len() - 1] == docs.last());
    } else {
        lemma_pair_count_witness(docs.drop_last(), c, n);
        let u = choose|u: int| 0 <= u < docs.drop_last().len() && docs.drop_last()[u].collection@ == c
            && docs.drop_last()[u].section@ == n;
        assert(docs[u] == docs.drop_last()[u]);
    }
}

proof fn lemma_total_insert(secs: Seq<Section>, p: int, s: Section)
    requires
        0 <= p <= secs.len(),
    ensures
        total_count(secs.insert(p, s)) == total_count(secs) + s.doc_count,
    decreases secs.len(),
{
    if p == secs.len() {
        assert(secs.insert(p, s) =~= secs.push(s));
        assert(secs.push(s).drop_last() =~= secs);
    } else {
        lemma_total_insert(secs.drop_last(), p, s);
        assert(secs.insert(p, s).drop_last() =~= secs.drop_last().insert(p, s));
        assert(secs.insert(p, s).last() == secs.last());
    }
}

proof fn lemma_total_update(secs: Seq<Section>, p: int, s: Section)
    requires
        0 <= p < secs.len(),
    ensures
        total_count(secs.update(p, s)) + secs[p].doc_count == total_count(secs) + s.doc_count,
    decreases secs.len(),
{
    if p == secs.len() - 1 {
        assert(secs.update(p, s).drop_last() =~= secs.drop_last());
    } else {
        lemma_total_update(secs.drop_last(), p, s);
        assert(secs.update(p, s).drop_last() =~= secs.drop_last().update(p, s));
    }
}

fn section_desc_exec(colls: &Vec<ResolvedCollection>, collection: &[char], name: &[char]) -> (r: String)
    ensures
        r@ == section_desc(colls@, collection@, name@),
{
    let mut found: Option<String> = None;
    let mut i: usize = 0;
    while i < colls.len()
        invariant
            i <= colls.len(),
            match found {
                Some(d) => d@ == section_desc(colls@.take(i as int), collection@, name@),
                None => section_desc(colls@.take(i as int), collection@, name@) == Seq::<char>::empty(),
            },
        decreases colls.len() - i,
    {
        let ghost t = colls@.take(i + 1);
        assert(t.drop_last() =~= colls@.take(i as int));
        assert(t.last() == colls@[i as int]);
        let c = &colls[i];
        let cn = chars_of(c.name.as_str());
        if chars_eq(cn.as_slice(), collection) {
            let mut local: Option<String> = None;
            let mut j: usize = 0;
            while j < c.sections.len()
                invariant
                    j <= c.sections.len(),
                    match local {
                        Some(d) => desc_in(c.sections@.take(j as int), name@) == Some(d@),
                        None => desc_in(c.sections@.take(j as int), name@) is None,
                    },
                decreases c.sections.len() - j,
            {
                let ghost u = c.sections@.take(j + 1);
                assert(u.drop_last() =~= c.sections@.take(j as int));
                assert(u.last() == c.sections@[j as int]);
                let pn = chars_of(c.sections[j].prefix.as_str());
                if chars_eq(pn.as_slice(), name) {
                    local = Some(c.sections[j].description.clone());
                }
                j = j + 1;
            }
            assert(c.sections@.take(c.sections.len() as int) =~= c.sections@);
            match local {
                Some(d) => {
                    found = Some(d);
                },
                None => {},
            }
        }
        i = i + 1;
    }
    assert(colls@.take(colls.len() as int) =~= colls@);
    match found {
        Some(d) => d,
        None => String::new(),
    }
}

/// Derives sections from document counts, enriched with descriptions from
/// the configuration. Sections without a definition still appear, with an
/// empty description.
pub fn build_sections(documents: &Vec<Document>, collections: &Vec<ResolvedCollection>) -> (r: Vec<Section>)
    ensures
        sections_of(r@, documents@, collections@),
        total_count(r@) == sectioned_count(documents@),
{
    let mut secs: Vec<Section> = Vec::new();
    let mut keys: Vec<Vec<Vec<char>>> = Vec::new();
    let mut t: usize = 0;
    while t < documents.len()
        invariant
            t <= documents.len(),
            keys@.len() == secs@.len(),
            forall|i: int| 0 <= i < secs@.len() ==> key_view(#[trigger] keys@[i]@) == pair_key(secs@[i].collection@, secs@[i].name@),
            forall|i: int, j: int|
                0 <= i < j < secs@.len() ==> tuple_lt(
                    pair_key(secs@[i].collection@, secs@[i].name@),
                    pair_key(secs@[j].collection@, secs@[j].name@),
                ),
            forall|i: int|
                #![trigger secs@[i]]
                0 <= i < secs@.len() ==> {
                    &&& secs@[i].name@.len() > 0
                    &&& secs@[i].doc_count == pair_count(documents@.take(t as int), secs@[i].collection@, secs@[i].name@)
                    &&& secs@[i].doc_count > 0
                    &&& secs@[i].doc_count <= t
                    &&& secs@[i].description@ == section_desc(collections@, secs@[i].collection@, secs@[i].name@)
                },
            forall|u: int|
                #![trigger documents@[u]]
                0 <= u < t && documents@[u].section@.len() > 0 ==> exists|i: int|
                    0 <= i < secs@.len() && secs@[i].collection@ == documents@[u].collection@ && secs@[i].name@
                        == documents@[u].section@,
            total_count(secs@) == sectioned_count(documents@.take(t as int)),
        decreases documents.len() - t,
    {
        let ghost pre = documents@.take(t as int);
        let ghost post = documents@.take(t + 1);
        assert(post.drop_last() =~= pre);
        let d = &documents[t];
        assert(post.last() == *d);
        let sec = chars_of(d.section.as_str());
        if sec.len() == 0 {
            proof {
                assert forall|i: int| 0 <= i < secs@.len() implies #[trigger] pair_count(post, secs@[i].collection@, secs@[i].name@)
                    == pair_count(pre, secs@[i].collection@, secs@[i].name@) by {
                    assert(secs@[i].name@.len() > 0);
                }
            }
        } else {
            let coll = chars_of(d.collection.as_str());
            let mut key: Vec<Vec<char>> = Vec::new();
            key.push(coll.clone());
            key.push(sec.clone());
            let ghost kk = pair_key(d.collection@, d.section@);
            assert(key_view(key@) =~= kk);
            // the first position whose key is not below the new key
            let mut p: usize = 0;
            while p < keys.len() && tuple_less(&keys[p], &key)
                invariant
                    p <= keys@.len(),
                    keys@.len() == secs@.len(),
                    key_view(key@) == kk,
                    forall|i: int| 0 <= i < secs@.len() ==> key_view(#[trigger] keys@[i]@) == pair_key(secs@[i].collection@, secs@[i].name@),
                    forall|i: int| 0 <= i < p ==> tuple_lt(key_view(#[trigger] keys@[i]@), kk),
                decreases keys@.len() - p,
            {
                p = p + 1;
            }
            let equal = p < keys.len() && !tuple_less(&key, &keys[p]);
            let ghost prev = secs@;
            if equal {
                proof {
                    lemma_tuple_total(key_view(keys@[p as int]@), kk);
                    assert(key_view(keys@[p as int]@) == kk);
                    assert(kk[0] == d.collection@ && kk[1] == d.section@);
                    assert(prev[p as int].collection@ == d.collection@);
                    assert(prev[p as int].name@ == d.section@);
                }
                let old_sec = &secs[p];
                let updated = Section {
                    name: old_sec.name.clone(),
                    description: old_sec.description.clone(),
                    doc_count: old_sec.doc_count + 1,
                    collection: old_sec.collection.clone(),
                };
                secs.set(p, updated);
                proof {
                    lemma_total_update(prev, p as int, updated);
                    assert forall|i: int| 0 <= i < secs@.len() implies #[trigger] pair_count(post, secs@[i].collection@, secs@[i].name@)
                        == pair_count(pre, secs@[i].collection@, secs@[i].name@) + if i == p { 1nat } else { 0nat } by {
                        if i != p {
                            if secs@[i].collection@ == d.collection@ && secs@[i].name@ == d.section@ {
                                assert(pair_key(secs@[i].collection@, secs@[i].name@) == kk);
                                if i < p {
                                    lemma_tuple_irreflexive(kk);
                                } else {
                                    lemma_tuple_irreflexive(kk);
                                }
                            }
                        }
                    }
                    assert forall|u: int| 0 <= u < t + 1 && documents@[u].section@.len() > 0 implies exists|i: int|
                        0 <= i < secs@.len() && secs@[i].collection@ == documents@[u].collection@ && secs@[i].name@
                            == documents@[u].section@ by {
                        if u < t {
                            let i = choose|i: int| 0 <= i < prev.len() && prev[i].collection@ == documents@[u].collection@ && prev[i].name@
                                == documents@[u].section@;
                            assert(secs@[i].collection@ == prev[i].collection@);
                        } else {
                            assert(secs@[p as int].collection@ == documents@[u].collection@);
                        }
                    }
                }
            } else {
                proof {
                    if pair_count(pre, d.collection@, d.section@) > 0 {
                        lemma_pair_count_witness(pre, d.collection@, d.section@);
                        let u = choose|u: int| 0 <= u < pre.len() && pre[u].collection@ == d.collection@ && pre[u].section@ == d.section@;
                        assert(pre[u] == documents@[u]);
                        let i = choose|i: int| 0 <= i < prev.len() && prev[i].collection@ == documents@[u].collection@ && prev[i].name@
                            == documents@[u].section@;
                        assert(key_view(keys@[i]@) == kk);
                        if i < p {
                            lemma_tuple_irreflexive(kk);
                        } else if i == p {
                            lemma_tuple_irreflexive(kk);
                        } else {
                            assert(tuple_lt(key_view(keys@[p as int]@), key_view(keys@[i]@)));
                            assert(!tuple_lt(kk, key_view(keys@[p as int]@)));
                            lemma_tuple_total(key_view(keys@[p as int]@), kk);
                            lemma_tuple_irreflexive(kk);
                        }
                    }
                }
                let desc = section_desc_exec(collections, coll.as_slice(), sec.as_slice());
                let new_sec = Section {
                    name: string_of(sec.as_slice()),
                    description: desc,
                    doc_count: 1,
                    collection: string_of(coll.as_slice()),
                };
                secs.insert(p, new_sec);
                keys.insert(p, key);
                proof {
                    lemma_total_insert(prev, p as int, new_sec);
                    assert(secs@ == prev.insert(p as int, new_sec));
                    assert forall|i: int, j: int| 0 <= i < j < secs@.len() implies tuple_lt(
                        pair_key(secs@[i].collection@, secs@[i].name@),
                        pair_key(secs@[j].collection@, secs@[j].name@),
                    ) by {
                        if j < p {
                        } else if i < p && j == p {
                            assert(tuple_lt(key_view(keys@[i]@), kk));
                        } else if i < p {
                            assert(tuple_lt(key_view(keys@[i]@), kk));
                            if p < prev.len() {
                                lemma_tuple_total(key_view(keys@[p as int + 1]@), kk);
                            }
                            assert(secs@[j] == prev[j - 1]);
                            assert(tuple_lt(kk, pair_key(secs@[j].collection@, secs@[j].name@))) by {
                                lemma_tuple_total(key_view(keys@[p as int + 1]@), kk);
                                if j - 1 > p {
                                    lemma_tuple_transitive(kk, pair_key(prev[p as int].collection@, prev[p as int].name@), pair_key(prev[j - 1].collection@, prev[j - 1].name@));
                                }
                            }
                            lemma_tuple_transitive(pair_key(secs@[i].collection@, secs@[i].name@), kk, pair_key(secs@[j].collection@, secs@[j].name@));
                        } else if i == p {
                            assert(secs@[j] == prev[j - 1]);
                            lemma_tuple_total(key_view(keys@[p as int + 1]@), kk);
                            if j - 1 > p {
                                lemma_tuple_transitive(kk, pair_key(prev[p as int].collection@, prev[p as int].name@), pair_key(prev[j - 1].collection@, prev[j - 1].name@));
                            }
                        } else {
                            assert(secs@[i] == prev[i - 1]);
                            assert(secs@[j] == prev[j - 1]);
                        }
                    }
                    assert forall|i: int| 0 <= i < secs@.len() implies #[trigger] pair_count(post, secs@[i].collection@, secs@[i].name@)
                        == pair_count(pre, secs@[i].collection@, secs@[i].name@) + if i == p { 1nat } else { 0nat } by {
                        if i != p {
                            let q = if i < p { i } else { i - 1 };
                            assert(secs@[i] == prev[q]);
                            if secs@[i].collection@ == d.collection@ && secs@[i].name@ == d.section@ {
                                assert(pair_key(prev[q].collection@, prev[q].name@) == kk);
                                if q < p {
                                    lemma_tuple_irreflexive(kk);
                                } else {
                                    assert(!tuple_lt(kk, key_view(keys@[p as int + 1]@)));
                                    lemma_tuple_total(key_view(keys@[p as int + 1]@), kk);
                                    if q > p {
                                        lemma_tuple_transitive(key_view(keys@[p as int + 1]@), kk, key_view(keys@[p as int + 1]@));
                                        lemma_tuple_irreflexive(kk);
                                    }
                                    lemma_tuple_irreflexive(kk);
                                }
                            }
                        }
                    }
                    assert forall|u: int| 0 <= u < t + 1 && documents@[u].section@.len() > 0 implies exists|i: int|
                        0 <= i < secs@.len() && secs@[i].collection@ == documents@[u].collection@ && secs@[i].name@
                            == documents@[u].section@ by {
                        if u < t {
                            let i = choose|i: int| 0 <= i < prev.len() && prev[i].collection@ == documents@[u].collection@ && prev[i].name@
                                == documents@[u].section@;
                            let q = if i < p { i } else { i + 1 };
                            assert(secs@[q] == prev[i]);
                        } else {
                            assert(secs@[p as int].collection@ == documents@[u].collection@);
                        }
                    }
                }
            }
        }
        t = t + 1;
    }
    assert(documents@.take(documents.len() as int) =~= documents@);
    secs
}

/// Every file falls in a section: its first component, or the root section.
pub proof fn lemma_section_nonempty(rel_path: Seq<char>)
    ensures
        section_of(rel_path).len() > 0,
{
    lemma_components_nonempty(rel_path);
}

proof fn lemma_sectioned_all(docs: Seq<Document>)
    requires
        forall|i: int| 0 <= i < docs.len() ==> (#[trigger] docs[i]).section@.len() > 0,
    ensures
        sectioned_count(docs) == docs.len(),
    decreases docs.len(),
{
    if docs.len() > 0 {
        let init = docs.drop_last();
        assert forall|i: int| 0 <= i < init.len() implies (#[trigger] init[i]).section@.len() > 0 by {
            assert(init[i] == docs[i]);
        }
        lemma_sectioned_all(init);
        assert(docs[docs.len() - 1] == docs.last());
    }
}

/// Every document is accounted for by some section: the document counts of
/// an index's sections add up to the number of its documents.
pub proof fn lemma_sections_count_every_document(index: Index, collections: Seq<ResolvedCollection>, files: Seq<SourceFile>)
    requires
        index.documents@.len() == files.len(),
        forall|i: int|
            #![trigger index.documents@[i]]
            0 <= i < files.len() ==> parsed_as(
                index.documents@[i],
                files[i].rel_path@,
                files[i].content@,
                files[i].collection@,
            ),
        total_count(index.sections@) == sectioned_count(index.documents@),
    ensures
        total_count(index.sections@) == index.documents@.len(),
{
    assert forall|i: int| 0 <= i < index.documents@.len() implies (#[trigger] index.documents@[i]).section@.len() > 0 by {
        lemma_section_nonempty(files[i].rel_path@);
    }
    lemma_sectioned_all(index.documents@);
}

// ---------------------------------------------------------------------------
// The index
// ---------------------------------------------------------------------------

/// A markdown file read from a collection directory.
pub struct SourceFile {
    /// The name of the collection the file belongs to.
    pub collection: String,
    /// Path relative to the collection root, components separated by `/`.
    pub rel_path: String,
    /// The file's text.
    pub content: String,
}

/// The content hashes of the files of collection `name`: relative path →
/// lower-case hex BLAKE3 hash of the file's UTF-8 bytes.
pub open spec fn file_hashes(files: Seq<SourceFile>, name: Seq<char>) -> Map<Seq<char>, Seq<char>>
    decreases files.len(),
{
    if files.len() == 0 {
        Map::empty()
    } else {
        let m = file_hashes(files.drop_last(), name);
        let f = files.last();
        if f.collection@ == name {
            m.insert(f.rel_path@, hex_of(blake3_hash(vstd::utf8::encode_utf8(f.content@))))
        } else {
            m
        }
    }
}

/// The position of the first document at `path`.
pub open spec fn position_of_path(docs: Seq<Document>, path: Seq<char>) -> Option<int>
    decreases docs.len(),
{
    if docs.len() == 0 {
        None
    } else if docs[0].path@ == path {
        Some(0)
    } else {
        match position_of_path(docs.drop_first(), path) {
            Some(i) => Some(i + 1),
            None => None,
        }
    }
}

/// A found position is in range and holds a document at that path.
pub proof fn lemma_position_of_path(docs: Seq<Document>, path: Seq<char>)
    ensures
        position_of_path(docs, path) matches Some(i) ==> 0 <= i < docs.len() && docs[i].path@ == path,
    decreases docs.len(),
{
    if docs.len() > 0 && docs[0].path@ != path {
        lemma_position_of_path(docs.drop_first(), path);
    }
}

/// The position of the first document of collection `collection` at `path`.
pub open spec fn position_of_doc(docs: Seq<Document>, collection: Seq<char>, path: Seq<char>) -> Option<int>
    decreases docs.len(),
{
    if docs.len() == 0 {
        None
    } else if docs[0].collection@ == collection && docs[0].path@ == path {
        Some(0)
    } else {
        match position_of_doc(docs.drop_first(), collection, path) {
            Some(i) => Some(i + 1),
            None => None,
        }
    }
}

/// A found position is in range and holds a document of that collection at
/// that path.
pub proof fn lemma_position_of_doc(docs: Seq<Document>, collection: Seq<char>, path: Seq<char>)
    ensures
        position_of_doc(docs, collection, path) matches Some(i) ==> 0 <= i < docs.len()
            && docs[i].collection@ == collection && docs[i].path@ == path,
    decreases docs.len(),
{
    if docs.len() > 0 && !(docs[0].collection@ == collection && docs[0].path@ == path) {
        lemma_position_of_doc(docs.drop_first(), collection, path);
    }
}

/// The position of the first document whose title equals `title` ignoring
/// case (both sides lower-cased).
pub open spec fn position_of_title(docs: Seq<Document>, title: Seq<char>) -> Option<int>
    decreases docs.len(),
{
    if docs.len() == 0 {
        None
    } else if lowercase(docs[0].title@) == lowercase(title) {
        Some(0)
    } else {
        match position_of_title(docs.drop_first(), title) {
            Some(i) => Some(i + 1),
            None => None,
        }
    }
}

/// Finding a document by title: the first document whose title equals the
/// query when both are lower-cased; none when no title does. So a document
/// is always found by its own title as written (it, or an earlier one with
/// the same title ignoring case), and two queries with the same lower-case
/// form find the same document.
pub proof fn lemma_title_lookup(docs: Seq<Document>, t: Seq<char>, u: Seq<char>)
    ensures
        match position_of_title(docs, t) {
            Some(j) => 0 <= j < docs.len() && lowercase(docs[j].title@) == lowercase(t) && forall|k: int|
                0 <= k < j ==> lowercase((#[trigger] docs[k]).title@) != lowercase(t),
            None => forall|k: int| 0 <= k < docs.len() ==> lowercase((#[trigger] docs[k]).title@) != lowercase(t),
        },
        lowercase(t) == lowercase(u) ==> position_of_title(docs, t) == position_of_title(docs, u),
        forall|k: int|
            0 <= k < docs.len() && t == (#[trigger] docs[k]).title@ ==> (position_of_title(docs, t) matches Some(j)
                && j <= k),
    decreases docs.len(),
{
    if docs.len() > 0 {
        let rest = docs.drop_first();
        lemma_title_lookup(rest, t, u);
        assert forall|k: int| 0 < k < docs.len() implies #[trigger] docs[k] == rest[k - 1] by {}
    }
}

/// The in-memory document index, rebuilt on startup and on reindex.
pub struct Index {
    pub documents: Vec<Document>,
    pub sections: Vec<Section>,
    /// For each configured collection (in configuration order), its name and
    /// the content hashes of its files.
    pub content_hashes: Vec<(String, HashIndex)>,
}

impl Index {
    /// Builds the index from the files read from the collections: one
    /// document per file, in order; the sections they fall into; and the
    /// content hashes of each collection. Every document falls in a section,
    /// so the section counts add up to the number of documents.
    pub fn build(collections: &Vec<ResolvedCollection>, files: &Vec<SourceFile>) -> (r: Index)
        ensures
            r.documents@.len() == files@.len(),
            forall|i: int|
                #![trigger r.documents@[i]]
                0 <= i < files@.len() ==> parsed_as(
                    r.documents@[i],
                    files@[i].rel_path@,
                    files@[i].content@,
                    files@[i].collection@,
                ),
            sections_of(r.sections@, r.documents@, collections@),
            total_count(r.sections@) == sectioned_count(r.documents@),
            total_count(r.sections@) == r.documents@.len(),
            r.content_hashes@.len() == collections@.len(),
            forall|j: int|
                #![trigger r.content_hashes@[j]]
                0 <= j < collections@.len() ==> r.content_hashes@[j].0@ == collections@[j].name@
                    && r.content_hashes@[j].1@ == file_hashes(files@, collections@[j].name@),
    {
        let mut documents: Vec<Document> = Vec::new();
        let mut i: usize = 0;
        while i < files.len()
            invariant
                i <= files@.len(),
                documents@.len() == i,
                forall|k: int|
                    #![trigger documents@[k]]
                    0 <= k < i ==> parsed_as(
                        documents@[k],
                        files@[k].rel_path@,
                        files@[k].content@,
                        files@[k].collection@,
                    ),
            decreases files.len() - i,
        {
            let f = &files[i];
            let d = parse_document(f.rel_path.as_str(), f.content.as_str(), f.collection.as_str());
            documents.push(d);
            i = i + 1;
        }
        let sections = build_sections(&documents, collections);
        let mut content_hashes: Vec<(String, HashIndex)> = Vec::new();
        let mut j: usize = 0;
        while j < collections.len()
            invariant
                j <= collections@.len(),
                content_hashes@.len() == j,
                forall|q: int|
                    #![trigger content_hashes@[q]]
                    0 <= q < j ==> content_hashes@[q].0@ == collections@[q].name@
                        && content_hashes@[q].1@ == file_hashes(files@, collections@[q].name@),
            decreases collections.len() - j,
        {
            let name = chars_of(collections[j].name.as_str());
            let mut h = HashIndex::new();
            let mut k: usize = 0;
            while k < files.len()
                invariant
                    k <= files@.len(),
                    name@ == collections@[j as int].name@,
                    h@ == file_hashes(files@.take(k as int), name@),
                decreases files.len() - k,
            {
                let ghost t = files@.take(k + 1);
                assert(t.drop_last() =~= files@.take(k as int));
                assert(t.last() == files@[k as int]);
                let f = &files[k];
                let fc = chars_of(f.collection.as_str());
                if chars_eq(fc.as_slice(), name.as_slice()) {
                    let hash = hash_content(f.content.as_str().as_bytes());
                    let path = string_of(chars_of(f.rel_path.as_str()).as_slice());
                    h.insert(path, hash);
                }
                k = k + 1;
            }
            assert(files@.take(files.len() as int) =~= files@);
            let cname = string_of(name.as_slice());
            content_hashes.push((cname, h));
            j = j + 1;
        }
        let r = Index { documents, sections, content_hashes };
        proof {
            lemma_sections_count_every_document(r, collections@, files@);
        }
        r
    }

    /// The first document at `path`.
    pub fn find_by_path(&self, path: &str) -> (r: Option<&Document>)
        ensures
            match position_of_path(self.documents@, path@) {
                Some(i) => r == Some(&self.documents@[i]),
                None => r is None,
            },
    {
        let p = chars_of(path);
        let mut i: usize = 0;
        assert(self.documents@.skip(0) =~= self.documents@);
        while i < self.documents.len()
            invariant
                i <= self.documents@.len(),
                p@ == path@,
                position_of_path(self.documents@, path@) == match position_of_path(self.documents@.skip(i as int), path@) {
                    Some(k) => Some(k + i),
                    None => None,
                },
            decreases self.documents.len() - i,
        {
            let ghost rest = self.documents@.skip(i as int);
            assert(rest[0] == self.documents@[i as int]);
            let dp = chars_of(self.documents[i].path.as_str());
            if chars_eq(dp.as_slice(), p.as_slice()) {
                return Some(&self.documents[i]);
            }
            assert(rest.drop_first() =~= self.documents@.skip(i + 1));
            i = i + 1;
        }
        None
    }

    /// The first document whose title matches `title` ignoring case.
    pub fn find_by_title(&self, title: &str) -> (r: Option<&Document>)
        ensures
            match position_of_title(self.documents@, title@) {
                Some(i) => r == Some(&self.documents@[i]),
                None => r is None,
            },
    {
        let lower = to_lowercase(title);
        let lc = chars_of(lower.as_str());
        let mut i: usize = 0;
        assert(self.documents@.skip(0) =~= self.documents@);
        while i < self.documents.len()
            invariant
                i <= self.documents@.len(),
                lc@ == lowercase(title@),
                position_of_title(self.documents@, title@) == match position_of_title(self.documents@.skip(i as int), title@) {
                    Some(k) => Some(k + i),
                    None => None,
                },
            decreases self.documents.len() - i,
        {
            let ghost rest = self.documents@.skip(i as int);
            assert(rest[0] == self.documents@[i as int]);
            let dl = to_lowercase(self.documents[i].title.as_str());
            let dc = chars_of(dl.as_str());
            if chars_eq(dc.as_slice(), lc.as_slice()) {
                return Some(&self.documents[i]);
            }
            assert(rest.drop_first() =~= self.documents@.skip(i + 1));
            i = i + 1;
        }
        None
    }
    /// A document by path, else by title ignoring case.
    pub fn lookup(&self, key: &str) -> (r: Option<&Document>)
        ensures
            match position_of_path(self.documents@, key@) {
                Some(i) => r == Some(&self.documents@[i]),
                None => match position_of_title(self.documents@, key@) {
                    Some(i) => r == Some(&self.documents@[i]),
                    None => r is None,
                },
            },
    {
        match self.find_by_path(key) {
            Some(d) => Some(d),
            None => self.find_by_title(key),
        }
    }

    /// The content hashes of the first collection named `name`.
    pub fn hashes_for(&self, name: &str) -> (r: Option<&HashIndex>)
        ensures
            match r {
                Some(h) => exists|j: int|
                    0 <= j < self.content_hashes@.len() && self.content_hashes@[j].0@ == name@
                        && *h == self.content_hashes@[j].1 && forall|q: int|
                        0 <= q < j ==> (#[trigger] self.content_hashes@[q]).0@ != name@,
                None => forall|j: int|
                    0 <= j < self.content_hashes@.len() ==> (#[trigger] self.content_hashes@[j]).0@ != name@,
            },
    {
        let n = chars_of(name);
        let mut j: usize = 0;
        while j < self.content_hashes.len()
            invariant
                j <= self.content_hashes@.len(),
                n@ == name@,
                forall|q: int| 0 <= q < j ==> (#[trigger] self.content_hashes@[q]).0@ != name@,
            decreases self.content_hashes.len() - j,
        {
            let c = chars_of(self.content_hashes[j].0.as_str());
            if chars_eq(c.as_slice(), n.as_slice()) {
                return Some(&self.content_hashes[j].1);
            }
            j = j + 1;
        }
        None
    }
}

} // verus!
