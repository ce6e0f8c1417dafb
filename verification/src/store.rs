//! Bookkeeping for the persistent per-collection search stores.
//!
//! Each collection gets its own `.mv2` file at `<cache_dir>/<hash>-<name>.mv2`,
//! where the hash prefix (first 8 hex characters of the SHA-256 of the
//! collection path) keeps two projects with same-named collections apart.
//! Beside it, a `.hashes` sidecar records the content hash of every indexed
//! file, one `<hash> <path>` line per file, so that a sync only ingests what
//! changed. This module names those files, reads and writes the sidecar text,
//! compares hash indexes, and decides what a sync has to do; opening and
//! writing the store itself happens at the application's edge.

use vstd::prelude::*;
use crate::config::ResolvedCollection;
use crate::hash_index::string_views;
pub use crate::hash_index::{compute_diff, parse_hashes, serialize_hashes, HashIndex, SyncDiff};
use crate::text::{
    chars_eq, chars_of, find, find_exec, find_from, lemma_find, occurs_at, push_char, push_chars, push_str,
    slice_chars, string_of,
};
use crate::types::Document;

verus! {

// ---------------------------------------------------------------------------
// Document URIs
// ---------------------------------------------------------------------------

/// The separator between a collection name and a relative path in a URI.
pub open spec fn scheme_sep() -> Seq<char> {
    seq![':', '/', '/']
}

fn scheme_sep_exec() -> (r: Vec<char>)
    ensures
        r@ == scheme_sep(),
{
    let mut r: Vec<char> = Vec::new();
    r.push(':');
    r.push('/');
    r.push('/');
    assert(r@ =~= scheme_sep());
    r
}

/// The URI of a document: `<collection>://<relative-path>`.
pub open spec fn uri_of(collection: Seq<char>, path: Seq<char>) -> Seq<char> {
    collection + scheme_sep() + path
}

/// Splits a URI at its first `://` (`str::split_once("://")`).
pub open spec fn split_uri(uri: Seq<char>) -> Option<(Seq<char>, Seq<char>)> {
    match find(uri, scheme_sep()) {
        Some(k) => Some((uri.take(k), uri.skip(k + 3))),
        None => None,
    }
}

/// Formats a URI for a document within a collection.
///
/// URI scheme: `<collection>://<relative-path>`, unique across collections
/// and parseable back to collection name and relative path.
pub fn document_uri(collection_name: &str, relative_path: &str) -> (r: String)
    ensures
        r@ == uri_of(collection_name@, relative_path@),
{
    let mut r = String::new();
    push_str(&mut r, collection_name);
    let sep = scheme_sep_exec();
    push_chars(&mut r, sep.as_slice());
    push_str(&mut r, relative_path);
    r
}

/// Parses a document URI back into (collection name, relative path).
pub fn parse_uri(uri: &str) -> (r: Option<(&str, &str)>)
    ensures
        match split_uri(uri@) {
            Some((c, p)) => r matches Some((rc, rp)) && rc@ == c && rp@ == p,
            None => r is None,
        },
{
    let cs = chars_of(uri);
    let sep = scheme_sep_exec();
    match find_exec(cs.as_slice(), sep.as_slice()) {
        Some(k) => {
            proof {
                lemma_find(uri@, scheme_sep());
                assert(occurs_at(uri@, scheme_sep(), k as int));
            }
            let n = cs.len();
            assert(k + 3 <= n);
            let c = uri.substring_char(0, k);
            let p = uri.substring_char(k + 3, n);
            assert(uri@.subrange(0, k as int) =~= uri@.take(k as int));
            assert(uri@.subrange(k + 3, uri@.len() as int) =~= uri@.skip(k + 3));
            Some((c, p))
        },
        None => None,
    }
}

proof fn lemma_find_from_skip(s: Seq<char>, p: Seq<char>, i: int, m: int)
    requires
        0 <= i <= m <= s.len(),
        forall|j: int| i <= j < m ==> !occurs_at(s, p, j),
    ensures
        find_from(s, p, i) == find_from(s, p, m),
    decreases m - i,
{
    if i < m {
        lemma_find_from_skip(s, p, i + 1, m);
    }
}

/// A URI formatted by `document_uri` parses back into its collection name
/// and relative path, provided that no `://` starts inside the collection
/// name (the parse splits at the first one).
pub proof fn lemma_uri_roundtrip(collection: Seq<char>, path: Seq<char>)
    requires
        forall|j: int|
            0 <= j < collection.len() ==> !occurs_at(uri_of(collection, path), scheme_sep(), j),
    ensures
        split_uri(uri_of(collection, path)) == Some((collection, path)),
{
    let u = uri_of(collection, path);
    lemma_find_from_skip(u, scheme_sep(), 0, collection.len() as int);
    assert(u.subrange(collection.len() as int, collection.len() + 3int) =~= scheme_sep());
    assert(u.take(collection.len() as int) =~= collection);
    assert(u.skip(collection.len() + 3int) =~= path);
}

/// A URI that parses is its collection, `://` and its path: two URIs that
/// parse to the same pair are the same URI.
pub proof fn lemma_split_uri_rebuilds(uri: Seq<char>)
    ensures
        split_uri(uri) matches Some((c, p)) ==> uri == uri_of(c, p),
{
    lemma_find(uri, scheme_sep());
    if let Some(k) = find(uri, scheme_sep()) {
        assert(uri.subrange(k, k + 3) == scheme_sep());
        assert(uri =~= uri.take(k) + scheme_sep() + uri.skip(k + 3));
    }
}

// ---------------------------------------------------------------------------
// Hex encoding
// ---------------------------------------------------------------------------

/// The lower-case hexadecimal digit of a value below 16.
pub open spec fn hex_digit(n: int) -> char {
    seq!['0', '1', '2', '3', '4', '5', '6', '7', '8', '9', 'a', 'b', 'c', 'd', 'e', 'f'][n]
}

/// The lower-case hexadecimal encoding of bytes, two digits per byte
/// (`format!("{:02x}", b)` for each byte).
pub open spec fn hex_of(bytes: Seq<u8>) -> Seq<char> {
    Seq::new(
        2 * bytes.len(),
        |j: int|
            if j % 2 == 0 {
                hex_digit(bytes[j / 2] as int / 16)
            } else {
                hex_digit(bytes[j / 2] as int % 16)
            },
    )
}

fn hex_digit_exec(n: u8) -> (c: char)
    requires
        n < 16,
    ensures
        c == hex_digit(n as int),
{
    let digits: Vec<char> = vec!['0', '1', '2', '3', '4', '5', '6', '7', '8', '9', 'a', 'b', 'c', 'd', 'e', 'f'];
    assert(digits@ =~= seq!['0', '1', '2', '3', '4', '5', '6', '7', '8', '9', 'a', 'b', 'c', 'd', 'e', 'f']);
    digits[n as usize]
}

/// The first `len` characters of the lower-case hex encoding of `bytes`.
pub fn hex_prefix(bytes: &[u8], len: usize) -> (r: String)
    ensures
        r@ == hex_of(bytes@).take(
            if len <= 2 * bytes.len() {
                len as int
            } else {
                2 * bytes.len()
            },
        ),
{
    let ghost full = hex_of(bytes@);
    let mut r = String::new();
    let mut j: usize = 0;
    while j < len && j / 2 < bytes.len()
        invariant
            j <= len,
            j <= 2 * bytes.len(),
            full == hex_of(bytes@),
            r@ == full.take(j as int),
        decreases len - j,
    {
        let b = bytes[j / 2];
        let c = if j % 2 == 0 {
            hex_digit_exec(b / 16)
        } else {
            hex_digit_exec(b % 16)
        };
        push_char(&mut r, c);
        assert(full[j as int] == c);
        j = j + 1;
        assert(r@ =~= full.take(j as int));
    }
    r
}

// ---------------------------------------------------------------------------
// Content hashes
// ---------------------------------------------------------------------------

/// The BLAKE3 hash of some bytes.
pub uninterp spec fn blake3_hash(data: Seq<u8>) -> Seq<u8>;

/// The SHA-256 digest of some bytes.
pub uninterp spec fn sha256_hash(data: Seq<u8>) -> Seq<u8>;

/// Calls `blake3::hash`. Claims that the 32-byte hash (`blake3::OUT_LEN`) is a
/// function of the input, named `blake3_hash`; nothing else of the hash
/// function is stated.
#[verifier::external_body]
fn blake3_digest(data: &[u8]) -> (r: Vec<u8>)
    ensures
        r@ == blake3_hash(data@),
        r@.len() == 32,
{
    blake3::hash(data).as_bytes().to_vec()
}

/// Calls `sha2::Sha256::digest`. Claims that the 32-byte digest is a function
/// of the input, named `sha256_hash`; nothing else of SHA-256 is stated.
#[verifier::external_body]
fn sha256_digest(data: &[u8]) -> (r: Vec<u8>)
    ensures
        r@ == sha256_hash(data@),
        r@.len() == 32,
{
    <sha2::Sha256 as sha2::Digest>::digest(data).to_vec()
}

/// The BLAKE3 hash of file content as 64 lower-case hex characters.
pub fn hash_content(content: &[u8]) -> (r: String)
    ensures
        r@ == hex_of(blake3_hash(content@)),
        r@.len() == 64,
{
    let h = blake3_digest(content);
    let r = hex_prefix(h.as_slice(), 64);
    assert(hex_of(h@).take(64) =~= hex_of(h@));
    r
}

// ---------------------------------------------------------------------------
// Store file names
// ---------------------------------------------------------------------------

/// `Path::join` on Unix: an absolute `p` replaces `base`; otherwise `p` is
/// appended after a `/` unless `base` is empty or already ends with one.
pub open spec fn path_join(base: Seq<char>, p: Seq<char>) -> Seq<char> {
    if p.len() > 0 && p[0] == '/' {
        p
    } else if base.len() == 0 || base.last() == '/' {
        base + p
    } else {
        base + seq!['/'] + p
    }
}

/// Joins a relative or absolute path onto a base directory.
pub fn path_join_exec(base: &str, p: &str) -> (r: String)
    ensures
        r@ == path_join(base@, p@),
{
    let bs = chars_of(base);
    let ps = chars_of(p);
    if ps.len() > 0 && ps[0] == '/' {
        return string_of(ps.as_slice());
    }
    let mut r = string_of(bs.as_slice());
    if bs.len() > 0 && bs[bs.len() - 1] != '/' {
        push_char(&mut r, '/');
    }
    push_chars(&mut r, ps.as_slice());
    r
}

/// The UTF-8 bytes of a collection path.
pub open spec fn path_bytes(c: ResolvedCollection) -> Seq<u8> {
    vstd::utf8::encode_utf8(c.path@)
}

/// `<first 8 hex chars of sha256(path)>-<name>` for a collection.
pub open spec fn store_stem(c: ResolvedCollection) -> Seq<char> {
    hex_of(sha256_hash(path_bytes(c))).take(8) + seq!['-'] + c.name@
}

/// The `.mv2` file name of a collection.
pub open spec fn mv2_file_name(c: ResolvedCollection) -> Seq<char> {
    store_stem(c) + seq!['.', 'm', 'v', '2']
}

/// The path of a collection's `.mv2` store.
pub open spec fn mv2_path_of(cache_dir: Seq<char>, c: ResolvedCollection) -> Seq<char> {
    path_join(cache_dir, mv2_file_name(c))
}

/// `Path::with_extension("hashes")` on a path that ends in `.mv2`: the
/// extension is replaced, unless the final component is exactly `.mv2`
/// (a dot file without extension), which gets `.hashes` appended.
pub open spec fn swap_to_hashes(p: Seq<char>) -> Seq<char> {
    let hashes = seq!['.', 'h', 'a', 's', 'h', 'e', 's'];
    if p.len() == 4 || (p.len() > 4 && p[p.len() - 5] == '/') {
        p + hashes
    } else {
        p.take(p.len() - 4) + hashes
    }
}

/// The path of a collection's `.hashes` sidecar.
pub open spec fn hashes_path_of(cache_dir: Seq<char>, c: ResolvedCollection) -> Seq<char> {
    swap_to_hashes(mv2_path_of(cache_dir, c))
}

fn store_stem_exec(collection: &ResolvedCollection) -> (r: String)
    ensures
        r@ == store_stem(*collection),
{
    let digest = sha256_digest(collection.path.as_str().as_bytes());
    let mut r = hex_prefix(digest.as_slice(), 8);
    push_char(&mut r, '-');
    push_str(&mut r, collection.name.as_str());
    r
}

/// Derives the `.mv2` file path for a collection under the cache directory.
///
/// The file name starts with the first 8 hex characters of the SHA-256 of
/// the collection path, which avoids collisions between projects that define
/// collections with the same name.
pub fn mv2_path(cache_dir: &str, collection: &ResolvedCollection) -> (r: String)
    ensures
        r@ == mv2_path_of(cache_dir@, *collection),
{
    let mut name = store_stem_exec(collection);
    push_char(&mut name, '.');
    push_char(&mut name, 'm');
    push_char(&mut name, 'v');
    push_char(&mut name, '2');
    assert(name@ =~= mv2_file_name(*collection));
    path_join_exec(cache_dir, name.as_str())
}

/// Derives the sidecar `.hashes` file path (content hashes for incremental
/// sync): the `.mv2` path with its extension replaced.
pub fn hashes_path(cache_dir: &str, collection: &ResolvedCollection) -> (r: String)
    ensures
        r@ == hashes_path_of(cache_dir@, *collection),
{
    let mv2 = mv2_path(cache_dir, collection);
    let p = chars_of(mv2.as_str());
    assert(p@.len() >= 4) by {
        assert(mv2_file_name(*collection).len() >= 4);
    }
    let mut r = if p.len() == 4 || (p.len() > 4 && p[p.len() - 5] == '/') {
        string_of(p.as_slice())
    } else {
        let stem = slice_chars(p.as_slice(), 0, p.len() - 4);
        assert(stem@ =~= p@.take(p@.len() - 4));
        string_of(stem.as_slice())
    };
    push_char(&mut r, '.');
    push_char(&mut r, 'h');
    push_char(&mut r, 'a');
    push_char(&mut r, 's');
    push_char(&mut r, 'h');
    push_char(&mut r, 'e');
    push_char(&mut r, 's');
    proof {
        let hashes = seq!['.', 'h', 'a', 's', 'h', 'e', 's'];
        if p@.len() == 4 || (p@.len() > 4 && p@[p@.len() - 5] == '/') {
            assert(r@ =~= p@ + hashes);
        } else {
            assert(r@ =~= p@.take(p@.len() - 4) + hashes);
        }
    }
    r
}

// ---------------------------------------------------------------------------
// Sync planning
// ---------------------------------------------------------------------------

/// What a sync of one collection's store has to do.
pub struct SyncPlan {
    /// Open the existing `.mv2` file (rather than create a new one).
    pub open_existing: bool,
    /// Number of added plus removed files.
    pub changes: usize,
    /// Recreate the store and ingest every document of the collection.
    pub full_rebuild: bool,
    /// Positions (in the document list) of the documents to ingest.
    pub ingest: Vec<usize>,
}

/// Positions of the documents of collection `name`; all of them when `all`,
/// otherwise only those whose path is in `paths`.
pub open spec fn ingest_positions(
    docs: Seq<Document>,
    name: Seq<char>,
    paths: Seq<Seq<char>>,
    all: bool,
) -> Seq<usize>
    decreases docs.len(),
{
    if docs.len() == 0 {
        Seq::empty()
    } else {
        let prev = ingest_positions(docs.drop_last(), name, paths, all);
        let d = docs.last();
        if d.collection@ == name && (all || paths.contains(d.path@)) {
            prev.push((docs.len() - 1) as usize)
        } else {
            prev
        }
    }
}

fn contains_string(v: &Vec<String>, x: &String) -> (r: bool)
    ensures
        r == string_views(v@).contains(x@),
{
    let mut i: usize = 0;
    while i < v.len()
        invariant
            i <= v.len(),
            forall|j: int| 0 <= j < i ==> v@[j]@ != x@,
        decreases v.len() - i,
    {
        if v[i] == *x {
            assert(string_views(v@)[i as int] == x@);
            return true;
        }
        i = i + 1;
    }
    assert forall|j: int| 0 <= j < string_views(v@).len() implies string_views(v@)[j] != x@ by {
        assert(string_views(v@)[j] == v@[j]@);
    }
    false
}

/// Decides what a sync of collection `collection_name` does, from the diff
/// of its hashes and whether its `.mv2` file exists: open the existing store
/// unless the sidecar was empty; with no change, only the sidecar is
/// rewritten; a removal (on a non-fresh store) forces a full rebuild, which
/// ingests every document of the collection; otherwise only the added or
/// changed documents are ingested.
pub fn plan_sync(
    diff: &SyncDiff,
    mv2_exists: bool,
    collection_name: &str,
    documents: &Vec<Document>,
) -> (r: SyncPlan)
    requires
        diff.to_add.len() + diff.to_remove.len() <= usize::MAX,
    ensures
        r.open_existing == (mv2_exists && !diff.is_fresh),
        r.changes == diff.to_add.len() + diff.to_remove.len(),
        r.full_rebuild == (r.changes > 0 && diff.to_remove.len() > 0 && !diff.is_fresh),
        r.ingest@ == if r.changes == 0 {
            Seq::<usize>::empty()
        } else {
            ingest_positions(
                documents@,
                collection_name@,
                string_views(diff.to_add@),
                r.full_rebuild,
            )
        },
{
    let changes = diff.to_add.len() + diff.to_remove.len();
    let open_existing = mv2_exists && !diff.is_fresh;
    let full_rebuild = changes > 0 && diff.to_remove.len() > 0 && !diff.is_fresh;
    let mut ingest: Vec<usize> = Vec::new();
    if changes > 0 {
        let name = chars_of(collection_name);
        let mut i: usize = 0;
        while i < documents.len()
            invariant
                i <= documents.len(),
                name@ == collection_name@,
                ingest@ == ingest_positions(
                    documents@.take(i as int),
                    collection_name@,
                    string_views(diff.to_add@),
                    full_rebuild,
                ),
            decreases documents.len() - i,
        {
            let d = &documents[i];
            let ghost pre = documents@.take(i + 1);
            assert(pre.drop_last() =~= documents@.take(i as int));
            assert(pre.last() == *d);
            let coll = chars_of(d.collection.as_str());
            if chars_eq(coll.as_slice(), name.as_slice()) && (full_rebuild || contains_string(
                &diff.to_add,
                &d.path,
            )) {
                ingest.push(i);
            }
            i = i + 1;
        }
        assert(documents@.take(documents.len() as int) =~= documents@);
    }
    SyncPlan { open_existing, changes, full_rebuild, ingest }
}

} // verus!
