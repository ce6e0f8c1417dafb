//! The decisions of the tools and commands around the index: where a new
//! note goes and what it holds, which collections need a re-sync, which
//! documents an export takes, and the messages that answer a request.

use vstd::prelude::*;
use crate::config::ResolvedCollection;
use crate::dates::{parse_ymd, ymd_days};
use crate::group::{filter_docs, filtered};
use crate::query::opt_view;
use crate::text::{
    chars_eq, chars_of, decimal, decimal_u64, ends_with, find_char, find_char_exec, has_suffix,
    join, join_exec, push_chars, push_str, slice_chars, string_of, trim, trim_exec, views,
};
use crate::types::Document;
use crate::write::{slug, slugify_title, split_char};
use crate::text::{find, lemma_find, lemma_find_char, lines, lowercase, occurs_at, has_prefix, strip_cr};
use crate::index::{parsed_as, trim_leading_newlines};

verus! {

// ---------------------------------------------------------------------------
// Target collections
// ---------------------------------------------------------------------------

/// The position of the first collection named `name`.
pub open spec fn collection_position(colls: Seq<ResolvedCollection>, name: Seq<char>) -> Option<int>
    decreases colls.len(),
{
    if colls.len() == 0 {
        None
    } else if colls[0].name@ == name {
        Some(0)
    } else {
        match collection_position(colls.drop_first(), name) {
            Some(i) => Some(i + 1),
            None => None,
        }
    }
}

/// The names of the collections, in order.
pub open spec fn collection_names_of(colls: Seq<ResolvedCollection>) -> Seq<Seq<char>> {
    colls.map_values(|c: ResolvedCollection| c.name@)
}

/// The names of the writable collections, in order.
pub open spec fn writable_names(colls: Seq<ResolvedCollection>) -> Seq<Seq<char>>
    decreases colls.len(),
{
    if colls.len() == 0 {
        Seq::empty()
    } else if colls.last().writable {
        writable_names(colls.drop_last()).push(colls.last().name@)
    } else {
        writable_names(colls.drop_last())
    }
}

/// `Collection '<name>' not found. Available: <names>`
pub open spec fn not_found_text(name: Seq<char>, colls: Seq<ResolvedCollection>) -> Seq<char> {
    "Collection '"@ + name + "' not found. Available: "@ + join(collection_names_of(colls), ", "@)
}

/// `Collection '<name>' is read-only. <hint>`, the hint naming the writable
/// collections, or saying that there are none.
pub open spec fn read_only_text(name: Seq<char>, colls: Seq<ResolvedCollection>) -> Seq<char> {
    let ws = writable_names(colls);
    "Collection '"@ + name + "' is read-only. "@ + if ws.len() == 0 {
        "No writable collections configured."@
    } else {
        "Writable collections: "@ + join(ws, ", "@)
    }
}

pub proof fn lemma_collection_position(colls: Seq<ResolvedCollection>, name: Seq<char>)
    ensures
        collection_position(colls, name) matches Some(i) ==> 0 <= i < colls.len() && colls[i].name@ == name,
        collection_position(colls, name) is None ==> forall|i: int| 0 <= i < colls.len() ==> (#[trigger] colls[i]).name@ != name,
    decreases colls.len(),
{
    if colls.len() > 0 {
        lemma_collection_position(colls.drop_first(), name);
        if colls[0].name@ != name {
            assert forall|i: int| 0 <= i < colls.len() && collection_position(colls, name) is None implies (#[trigger] colls[i]).name@ != name by {
                if i > 0 {
                    assert(colls[i] == colls.drop_first()[i - 1]);
                }
            }
        }
    }
}

/// The position of the first collection named `name`.
pub fn find_collection(collections: &Vec<ResolvedCollection>, name: &str) -> (r: Option<usize>)
    ensures
        match r {
            Some(i) => collection_position(collections@, name@) == Some(i as int),
            None => collection_position(collections@, name@) is None,
        },
{
    let n = chars_of(name);
    let mut i: usize = 0;
    assert(collections@.skip(0) =~= collections@);
    while i < collections.len()
        invariant
            i <= collections@.len(),
            n@ == name@,
            collection_position(collections@, name@) == match collection_position(collections@.skip(i as int), name@) {
                Some(k) => Some(k + i),
                None => None,
            },
        decreases collections.len() - i,
    {
        let ghost rest = collections@.skip(i as int);
        assert(rest[0] == collections@[i as int]);
        let c = chars_of(collections[i].name.as_str());
        if chars_eq(c.as_slice(), n.as_slice()) {
            return Some(i);
        }
        assert(rest.drop_first() =~= collections@.skip(i + 1));
        i = i + 1;
    }
    None
}

fn names_joined(collections: &Vec<ResolvedCollection>, writable_only: bool) -> (r: String)
    ensures
        r@ == join(if writable_only { writable_names(collections@) } else { collection_names_of(collections@) }, ", "@),
{
    let mut names: Vec<Vec<char>> = Vec::new();
    let mut i: usize = 0;
    while i < collections.len()
        invariant
            i <= collections@.len(),
            views(names@) == if writable_only {
                writable_names(collections@.take(i as int))
            } else {
                collection_names_of(collections@.take(i as int))
            },
        decreases collections.len() - i,
    {
        let ghost pre = collections@.take(i as int);
        let ghost post = collections@.take(i + 1);
        assert(post.drop_last() =~= pre);
        assert(post.last() == collections@[i as int]);
        let ghost before = views(names@);
        if !writable_only || collections[i].writable {
            names.push(chars_of(collections[i].name.as_str()));
            assert(views(names@) =~= before.push(collections@[i as int].name@));
        }
        assert(collection_names_of(post) =~= collection_names_of(pre).push(collections@[i as int].name@));
        i = i + 1;
    }
    assert(collections@.take(collections@.len() as int) =~= collections@);
    let sep = chars_of(", ");
    join_exec(&names, sep.as_slice())
}

/// Whether some collection is writable.
fn any_writable(collections: &Vec<ResolvedCollection>) -> (r: bool)
    ensures
        r == (writable_names(collections@).len() > 0),
{
    let mut i: usize = 0;
    while i < collections.len()
        invariant
            i <= collections@.len(),
            writable_names(collections@.take(i as int)).len() == 0,
        decreases collections.len() - i,
    {
        let ghost post = collections@.take(i + 1);
        assert(post.drop_last() =~= collections@.take(i as int));
        assert(post.last() == collections@[i as int]);
        if collections[i].writable {
            proof {
                lemma_writable_names_grow(collections@, i + 1);
            }
            return true;
        }
        i = i + 1;
    }
    assert(collections@.take(collections@.len() as int) =~= collections@);
    false
}

proof fn lemma_writable_names_grow(colls: Seq<ResolvedCollection>, n: int)
    requires
        0 < n <= colls.len(),
        colls[n - 1].writable,
    ensures
        writable_names(colls).len() > 0,
    decreases colls.len(),
{
    if n < colls.len() {
        assert(colls.drop_last()[n - 1] == colls[n - 1]);
        lemma_writable_names_grow(colls.drop_last(), n);
    }
}

/// Where a note may be written: the first collection named `name`, when it
/// is writable; otherwise the message that refuses the request.
pub fn check_write_target(collections: &Vec<ResolvedCollection>, name: &str) -> (r: Result<usize, String>)
    ensures
        match collection_position(collections@, name@) {
            None => r matches Err(m) && m@ == not_found_text(name@, collections@),
            Some(i) => if collections@[i].writable {
                r == Ok::<usize, String>(i as usize)
            } else {
                r matches Err(m) && m@ == read_only_text(name@, collections@)
            },
        },
{
    proof {
        lemma_collection_position(collections@, name@);
    }
    match find_collection(collections, name) {
        None => {
            let mut m = String::new();
            push_str(&mut m, "Collection '");
            push_str(&mut m, name);
            push_str(&mut m, "' not found. Available: ");
            let all = names_joined(collections, false);
            push_str(&mut m, all.as_str());
            Err(m)
        },
        Some(i) => {
            if collections[i].writable {
                Ok(i)
            } else {
                let mut m = String::new();
                push_str(&mut m, "Collection '");
                push_str(&mut m, name);
                push_str(&mut m, "' is read-only. ");
                if !any_writable(collections) {
                    push_str(&mut m, "No writable collections configured.");
                } else {
                    push_str(&mut m, "Writable collections: ");
                    let ws = names_joined(collections, true);
                    push_str(&mut m, ws.as_str());
                }
                Err(m)
            }
        },
    }
}

/// Whether some collection is named `name`.
pub fn collection_exists(collections: &Vec<ResolvedCollection>, name: &str) -> (r: bool)
    ensures
        r == (collection_position(collections@, name@) is Some),
{
    find_collection(collections, name).is_some()
}

/// The answer to a request naming an unknown collection.
pub fn collection_not_found(collections: &Vec<ResolvedCollection>, name: &str) -> (r: String)
    ensures
        r@ == not_found_text(name@, collections@),
{
    let mut m = String::new();
    push_str(&mut m, "Collection '");
    push_str(&mut m, name);
    push_str(&mut m, "' not found. Available: ");
    let all = names_joined(collections, false);
    push_str(&mut m, all.as_str());
    m
}

// ---------------------------------------------------------------------------
// New notes
// ---------------------------------------------------------------------------

/// `<today>-<slug of title>.md`
pub open spec fn dated_name(today: Seq<char>, title: Seq<char>) -> Seq<char> {
    today + "-"@ + slug(lowercase(title)) + ".md"@
}

/// An explicit file name, with `.md` added unless it ends so.
pub open spec fn md_name(name: Seq<char>) -> Seq<char> {
    if has_suffix(name, ".md"@) {
        name
    } else {
        name + ".md"@
    }
}

/// The date-prefixed file name of a new note.
pub fn note_file_name(today: &str, title: &str) -> (r: String)
    ensures
        r@ == dated_name(today@, title@),
{
    let mut r = String::new();
    push_str(&mut r, today);
    push_str(&mut r, "-");
    let s = slugify_title(title);
    push_str(&mut r, s.as_str());
    push_str(&mut r, ".md");
    r
}

/// An explicit file name for a new note.
pub fn explicit_file_name(name: &str) -> (r: String)
    ensures
        r@ == md_name(name@),
{
    let cs = chars_of(name);
    let md = chars_of(".md");
    if ends_with(cs.as_slice(), md.as_slice()) {
        string_of(cs.as_slice())
    } else {
        let mut r = string_of(cs.as_slice());
        push_chars(&mut r, md.as_slice());
        r
    }
}

/// Each piece trimmed.
pub open spec fn trimmed_all(ps: Seq<Seq<char>>) -> Seq<Seq<char>> {
    ps.map_values(|p: Seq<char>| trim(p))
}

/// The pieces of a comma-separated list, each trimmed.
pub open spec fn tag_list(s: Seq<char>) -> Seq<Seq<char>> {
    trimmed_all(split_char(s, ','))
}

/// Splits a comma-separated tag list, trimming each piece.
pub fn split_tags(tags: &str) -> (r: Vec<String>)
    ensures
        crate::format::strs(r@) == tag_list(tags@),
{
    let s = chars_of(tags);
    let mut out: Vec<String> = Vec::new();
    let mut start: usize = 0;
    let ghost whole = split_char(s@, ',');
    assert(s@.skip(0) =~= s@);
    assert(crate::format::strs(out@) + trimmed_all(whole) =~= trimmed_all(whole));
    loop
        invariant
            start <= s@.len(),
            s@ == tags@,
            whole == split_char(s@, ','),
            crate::format::strs(out@) + trimmed_all(split_char(s@.skip(start as int), ',')) == trimmed_all(whole),
        decreases s@.len() - start,
    {
        let rest = slice_chars(s.as_slice(), start, s.len());
        assert(rest@ =~= s@.skip(start as int));
        let k = find_char_exec(rest.as_slice(), ',');
        let ghost before = crate::format::strs(out@);
        if k >= rest.len() {
            let piece = trim_exec(rest.as_slice());
            out.push(string_of(piece.as_slice()));
            proof {
                assert(split_char(rest@, ',') == seq![rest@]);
                assert(crate::format::strs(out@) =~= before.push(trim(rest@)));
                assert(trimmed_all(seq![rest@]) =~= seq![trim(rest@)]);
                assert(crate::format::strs(out@) =~= before + trimmed_all(seq![rest@]));
                assert(split_char(s@.skip(start as int), ',') == seq![rest@]);
                assert(crate::format::strs(out@) == trimmed_all(whole));
            }
            return out;
        }
        let head = slice_chars(rest.as_slice(), 0, k);
        let piece = trim_exec(head.as_slice());
        out.push(string_of(piece.as_slice()));
        proof {
            let tail = rest@.skip(k + 1int);
            assert(head@ =~= rest@.take(k as int));
            assert(split_char(rest@, ',') == seq![rest@.take(k as int)] + split_char(tail, ','));
            assert(s@.skip(start + k + 1) =~= tail);
            assert(trimmed_all(seq![rest@.take(k as int)] + split_char(tail, ',')) =~= seq![trim(head@)] + trimmed_all(split_char(tail, ',')));
            assert(crate::format::strs(out@) =~= before.push(trim(head@)));
        }
        start = start + k + 1;
    }
}

/// The text of a new note: YAML frontmatter (tags when there are any, the
/// creation and update dates, status and source when given), an H1 title,
/// and the body.
pub open spec fn note_text(
    title: Seq<char>,
    body: Seq<char>,
    tags: Seq<Seq<char>>,
    today: Seq<char>,
    status: Option<Seq<char>>,
    source: Option<Seq<char>>,
) -> Seq<char> {
    "---\n"@ + (if tags.len() > 0 {
        "tags: ["@ + join(tags, ", "@) + "]\n"@
    } else {
        Seq::empty()
    }) + "created: "@ + today + "\n"@ + "updated: "@ + today + "\n"@ + (match status {
        Some(s) => "status: "@ + s + "\n"@,
        None => Seq::empty(),
    }) + (match source {
        Some(s) => "source: "@ + s + "\n"@,
        None => Seq::empty(),
    }) + "---\n\n"@ + "# "@ + title + "\n\n"@ + body + "\n"@
}

/// Builds the text of a new note.
#[verifier::spinoff_prover]
pub fn note_content(
    title: &str,
    body: &str,
    tags: &Vec<String>,
    today: &str,
    status: Option<&str>,
    source: Option<&str>,
) -> (r: String)
    ensures
        r@ == note_text(title@, body@, crate::format::strs(tags@), today@, opt_view(status), opt_view(source)),
{
    let mut r = String::new();
    push_str(&mut r, "---\n");
    let ghost a = r@;
    if tags.len() > 0 {
        push_str(&mut r, "tags: [");
        let mut tv: Vec<Vec<char>> = Vec::new();
        let mut i: usize = 0;
        while i < tags.len()
            invariant
                i <= tags@.len(),
                views(tv@) == crate::format::strs(tags@).take(i as int),
            decreases tags.len() - i,
        {
            let ghost before = views(tv@);
            tv.push(chars_of(tags[i].as_str()));
            assert(views(tv@) =~= before.push(tags@[i as int]@));
            i = i + 1;
            assert(views(tv@) =~= crate::format::strs(tags@).take(i as int));
        }
        assert(crate::format::strs(tags@).take(tags@.len() as int) =~= crate::format::strs(tags@));
        let sep = chars_of(", ");
        let joined = join_exec(&tv, sep.as_slice());
        push_str(&mut r, joined.as_str());
        push_str(&mut r, "]\n");
    }
    push_str(&mut r, "created: ");
    push_str(&mut r, today);
    push_str(&mut r, "\n");
    push_str(&mut r, "updated: ");
    push_str(&mut r, today);
    push_str(&mut r, "\n");
    if let Some(s) = status {
        push_str(&mut r, "status: ");
        push_str(&mut r, s);
        push_str(&mut r, "\n");
    }
    if let Some(s) = source {
        push_str(&mut r, "source: ");
        push_str(&mut r, s);
        push_str(&mut r, "\n");
    }
    push_str(&mut r, "---\n\n");
    push_str(&mut r, "# ");
    push_str(&mut r, title);
    push_str(&mut r, "\n\n");
    push_str(&mut r, body);
    push_str(&mut r, "\n");
    assert(crate::format::strs(tags@).len() == tags@.len());
    assert(r@ =~= note_text(title@, body@, crate::format::strs(tags@), today@, opt_view(status), opt_view(source)));
    r
}

// ---------------------------------------------------------------------------
// Staleness of the search stores
// ---------------------------------------------------------------------------

/// Minimum seconds between two automatic staleness checks, so that a burst
/// of requests checks the collections once.
pub const AUTO_REINDEX_COOLDOWN_SECS: u64 = 5;

/// Whether an automatic staleness check is due at `now` (seconds), the last
/// one having run at `last`: at least the cooldown has passed (a clock that
/// went back counts as no time passed).
pub open spec fn reindex_due_spec(now: u64, last: u64) -> bool {
    now >= last && now - last >= AUTO_REINDEX_COOLDOWN_SECS
}

/// Decides whether to run an automatic staleness check now: when it is due,
/// gives the time to record as the last check (`now`); otherwise nothing is
/// checked and the recorded time stays.
pub fn auto_reindex_due(now: u64, last: u64) -> (r: Option<u64>)
    ensures
        r == if reindex_due_spec(now, last) {
            Some(now)
        } else {
            None::<u64>
        },
{
    if now >= last && now - last >= AUTO_REINDEX_COOLDOWN_SECS {
        Some(now)
    } else {
        None
    }
}

/// After a check runs at `now`, no check is due again within the cooldown.
pub proof fn lemma_no_check_within_cooldown(now: u64, later: u64)
    requires
        later < now + AUTO_REINDEX_COOLDOWN_SECS,
    ensures
        !reindex_due_spec(later, now),
{
}

/// A collection needs a re-sync when its directory was modified after its
/// hashes sidecar, or when it has no sidecar yet. Times are instants on one
/// clock (`None`: not known).
pub open spec fn stale_spec(dir_time: Option<i128>, hashes_time: Option<i128>) -> bool {
    match (dir_time, hashes_time) {
        (Some(d), Some(h)) => d > h,
        (Some(_), None) => true,
        _ => false,
    }
}

/// Whether a collection needs a re-sync.
pub fn is_stale(dir_time: Option<i128>, hashes_time: Option<i128>) -> (r: bool)
    ensures
        r == stale_spec(dir_time, hashes_time),
{
    match (dir_time, hashes_time) {
        (Some(d), Some(h)) => d > h,
        (Some(_), None) => true,
        _ => false,
    }
}

/// The positions of the collections that need a re-sync, in order, given
/// the modification times of their directories and of their sidecars.
pub fn stale_positions(dir_times: &Vec<Option<i128>>, hashes_times: &Vec<Option<i128>>) -> (r: Vec<usize>)
    requires
        dir_times@.len() == hashes_times@.len(),
    ensures
        forall|k: int| 0 <= k < r@.len() ==> (#[trigger] r@[k]) < dir_times@.len(),
        forall|k: int, m: int| 0 <= k < m < r@.len() ==> r@[k] < r@[m],
        forall|k: int| 0 <= k < r@.len() ==> stale_spec(dir_times@[r@[k] as int], hashes_times@[r@[k] as int]),
        forall|i: int|
            0 <= i < dir_times@.len() && stale_spec(dir_times@[i], hashes_times@[i]) ==> r@.contains(i as usize),
{
    let mut r: Vec<usize> = Vec::new();
    let mut i: usize = 0;
    while i < dir_times.len()
        invariant
            i <= dir_times@.len(),
            dir_times@.len() == hashes_times@.len(),
            forall|k: int| 0 <= k < r@.len() ==> (#[trigger] r@[k]) < i,
            forall|k: int, m: int| 0 <= k < m < r@.len() ==> r@[k] < r@[m],
            forall|k: int| 0 <= k < r@.len() ==> stale_spec(dir_times@[r@[k] as int], hashes_times@[r@[k] as int]),
            forall|j: int| 0 <= j < i && stale_spec(dir_times@[j], hashes_times@[j]) ==> r@.contains(j as usize),
        decreases dir_times.len() - i,
    {
        if is_stale(dir_times[i], hashes_times[i]) {
            let ghost before = r@;
            r.push(i);
            proof {
                assert forall|j: int| 0 <= j < i + 1 && stale_spec(dir_times@[j], hashes_times@[j]) implies r@.contains(j as usize) by {
                    if j < i {
                        let k = choose|k: int| 0 <= k < before.len() && before[k] == j as usize;
                        assert(r@[k] == j as usize);
                    } else {
                        assert(r@[before.len() as int] == j as usize);
                    }
                }
            }
        }
        i = i + 1;
    }
    r
}

/// One automatic staleness check at `now` (seconds), the last having run at
/// `last`: within the cooldown nothing is checked and the recorded time
/// stays; otherwise the time to record becomes `now` and the collections
/// whose directory times and sidecar times show them stale are given, in
/// order.
pub fn reindex_step(now: u64, last: u64, dir_times: &Vec<Option<i128>>, hashes_times: &Vec<Option<i128>>) -> (r: (u64, Vec<usize>))
    requires
        dir_times@.len() == hashes_times@.len(),
    ensures
        !reindex_due_spec(now, last) ==> r.0 == last && r.1@.len() == 0,
        reindex_due_spec(now, last) ==> r.0 == now,
        forall|k: int| 0 <= k < r.1@.len() ==> (#[trigger] r.1@[k]) < dir_times@.len(),
        forall|k: int, m: int| 0 <= k < m < r.1@.len() ==> r.1@[k] < r.1@[m],
        forall|k: int| 0 <= k < r.1@.len() ==> stale_spec(dir_times@[r.1@[k] as int], hashes_times@[r.1@[k] as int]),
        forall|i: int|
            reindex_due_spec(now, last) && 0 <= i < dir_times@.len() && stale_spec(dir_times@[i], hashes_times@[i])
                ==> r.1@.contains(i as usize),
{
    match auto_reindex_due(now, last) {
        None => (last, Vec::new()),
        Some(t) => (t, stale_positions(dir_times, hashes_times)),
    }
}

// ---------------------------------------------------------------------------
// Export selection and messages
// ---------------------------------------------------------------------------

/// The documents an export takes: those that pass the collection filter, at
/// most `max_documents` of them, in order; with the number that passed.
pub fn export_selection<'a>(documents: &'a Vec<Document>, collection_filter: Option<&str>, max_documents: usize) -> (r: (
    Vec<&'a Document>,
    usize,
))
    ensures
        r.1 == filtered(documents@, opt_view(collection_filter)).len(),
        crate::group::derefs(r.0@) == filtered(documents@, opt_view(collection_filter)).take(
            if r.1 < max_documents { r.1 as int } else { max_documents as int },
        ),
{
    let all = filter_docs(documents, collection_filter);
    let matching = all.len();
    let mut taken: Vec<&Document> = Vec::new();
    let mut i: usize = 0;
    while i < all.len() && i < max_documents
        invariant
            i <= all@.len(),
            i <= max_documents,
            crate::group::derefs(taken@) == crate::group::derefs(all@).take(i as int),
        decreases all.len() - i,
    {
        let ghost before = taken@;
        taken.push(all[i]);
        assert(crate::group::derefs(taken@) =~= crate::group::derefs(before).push(*all@[i as int]));
        assert(crate::group::derefs(all@)[i as int] == *all@[i as int]);
        assert(crate::group::derefs(taken@) =~= crate::group::derefs(all@).take(i + 1));
        i = i + 1;
    }
    assert(crate::group::derefs(all@).len() == all@.len());
    (taken, matching)
}

/// `... truncated: showing <shown> of <matching> documents\n`
pub open spec fn truncation_text(shown: nat, matching: nat) -> Seq<char> {
    "... truncated: showing "@ + decimal(shown) + " of "@ + decimal(matching) + " documents\n"@
}

/// The note appended to an export that left documents out.
pub fn truncation_note(shown: usize, matching: usize) -> (r: String)
    ensures
        r@ == truncation_text(shown as nat, matching as nat),
{
    let mut r = String::new();
    push_str(&mut r, "... truncated: showing ");
    push_chars(&mut r, decimal_u64(shown as u64).as_slice());
    push_str(&mut r, " of ");
    push_chars(&mut r, decimal_u64(matching as u64).as_slice());
    push_str(&mut r, " documents\n");
    r
}

/// The answer to an export that found no documents.
pub open spec fn no_documents_text(filter: Option<Seq<char>>) -> Seq<char> {
    match filter {
        Some(c) => "No documents found in collection '"@ + c + "'"@,
        None => "No documents found"@,
    }
}

/// The answer to an export that found no documents.
pub fn no_documents_message(collection_filter: Option<&str>) -> (r: String)
    ensures
        r@ == no_documents_text(opt_view(collection_filter)),
{
    let mut r = String::new();
    match collection_filter {
        Some(c) => {
            push_str(&mut r, "No documents found in collection '");
            push_str(&mut r, c);
            push_str(&mut r, "'");
        },
        None => push_str(&mut r, "No documents found"),
    }
    r
}

/// The answer to a query whose `created_after` does not read as `YYYY-MM-DD`.
pub open spec fn invalid_date_text(date: Seq<char>) -> Seq<char> {
    "Invalid created_after date '"@ + date + "', expected YYYY-MM-DD format"@
}

/// Checks a `created_after` argument: `None` when it reads as `YYYY-MM-DD`,
/// else the message that refuses the query.
pub fn check_created_after(date: &str) -> (r: Option<String>)
    ensures
        match r {
            None => ymd_days(date@) is Some,
            Some(m) => ymd_days(date@) is None && m@ == invalid_date_text(date@),
        },
{
    match parse_ymd(date) {
        Some(_) => None,
        None => {
            let mut m = String::new();
            push_str(&mut m, "Invalid created_after date '");
            push_str(&mut m, date);
            push_str(&mut m, "', expected YYYY-MM-DD format");
            Some(m)
        },
    }
}

/// `Reindexed <docs> documents across <sections> sections`, with the number
/// of synced changes when there is one.
pub open spec fn reindex_text(docs: nat, sections: nat, changes: Option<nat>) -> Seq<char> {
    "Reindexed "@ + decimal(docs) + " documents across "@ + decimal(sections) + " sections"@ + match changes {
        Some(c) => " ("@ + decimal(c) + " changes synced)"@,
        None => Seq::empty(),
    }
}

/// The answer to a reindex.
pub fn reindex_message(docs: usize, sections: usize, changes: Option<usize>) -> (r: String)
    ensures
        r@ == reindex_text(docs as nat, sections as nat, match changes {
            Some(c) => Some(c as nat),
            None => None,
        }),
{
    let mut r = String::new();
    push_str(&mut r, "Reindexed ");
    push_chars(&mut r, decimal_u64(docs as u64).as_slice());
    push_str(&mut r, " documents across ");
    push_chars(&mut r, decimal_u64(sections as u64).as_slice());
    push_str(&mut r, " sections");
    if let Some(c) = changes {
        push_str(&mut r, " (");
        push_chars(&mut r, decimal_u64(c as u64).as_slice());
        push_str(&mut r, " changes synced)");
    }
    r
}

// ---------------------------------------------------------------------------
// A written note reads back
// ---------------------------------------------------------------------------

/// No line break in `s`.
pub open spec fn one_line(s: Seq<char>) -> bool {
    forall|j: int| 0 <= j < s.len() ==> s[j] != '\n'
}

/// Whole lines (each ending with a line break) none of which starts with `-`.
pub open spec fn plain_lines(x: Seq<char>) -> bool {
    x.len() == 0 || {
        &&& x[0] != '-'
        &&& x.last() == '\n'
        &&& forall|j: int| 0 <= j < x.len() - 1 && #[trigger] x[j] == '\n' ==> x[j + 1] != '-'
    }
}

proof fn lemma_plain_lines_concat(a: Seq<char>, b: Seq<char>)
    requires
        plain_lines(a),
        plain_lines(b),
    ensures
        plain_lines(a + b),
{
    let c = a + b;
    if a.len() > 0 && b.len() > 0 {
        assert forall|j: int| 0 <= j < c.len() - 1 && #[trigger] c[j] == '\n' implies c[j + 1] != '-' by {
            if j < a.len() - 1 {
                assert(c[j] == a[j] && c[j + 1] == a[j + 1]);
            } else if j == a.len() - 1 {
                assert(c[j + 1] == b[0]);
            } else {
                assert(c[j] == b[j - a.len()] && c[j + 1] == b[j + 1 - a.len()]);
            }
        }
        assert(c.last() == b.last());
        assert(c[0] == a[0]);
    } else if a.len() == 0 {
        assert(c =~= b);
    } else {
        assert(c =~= a);
    }
}

proof fn lemma_field_line(key: Seq<char>, v: Seq<char>)
    requires
        key.len() > 0,
        key[0] != '-',
        one_line(key),
        one_line(v),
    ensures
        plain_lines(key + v + "\n"@),
{
    reveal_strlit("\n");
    let x = key + v + "\n"@;
    assert forall|j: int| 0 <= j < x.len() - 1 && #[trigger] x[j] == '\n' implies x[j + 1] != '-' by {
        if j < key.len() {
            assert(x[j] == key[j]);
        } else {
            assert(x[j] == v[j - key.len()]);
        }
    }
    assert(x[0] == key[0]);
}

proof fn lemma_join_one_line(ls: Seq<Seq<char>>, sep: Seq<char>)
    requires
        one_line(sep),
        forall|i: int| 0 <= i < ls.len() ==> one_line(#[trigger] ls[i]),
    ensures
        one_line(join(ls, sep)),
    decreases ls.len(),
{
    if ls.len() > 1 {
        assert forall|i: int| 0 <= i < ls.drop_first().len() implies one_line(#[trigger] ls.drop_first()[i]) by {
            assert(ls.drop_first()[i] == ls[i + 1]);
        }
        lemma_join_one_line(ls.drop_first(), sep);
        let x = ls[0] + sep + join(ls.drop_first(), sep);
        assert(one_line(ls[0]));
        assert forall|j: int| 0 <= j < x.len() implies x[j] != '\n' by {
            if j < ls[0].len() {
                assert(x[j] == ls[0][j]);
            } else if j < ls[0].len() + sep.len() {
                assert(x[j] == sep[j - ls[0].len()]);
            } else {
                assert(x[j] == join(ls.drop_first(), sep)[j - ls[0].len() - sep.len()]);
            }
        }
    } else if ls.len() == 1 {
        assert(one_line(ls[0]));
    }
}

proof fn lemma_find_first(s: Seq<char>, p: Seq<char>, k: int)
    requires
        occurs_at(s, p, k),
        forall|j: int| 0 <= j < k ==> !occurs_at(s, p, j),
    ensures
        find(s, p) == Some(k),
{
    lemma_find(s, p);
    if let Some(k2) = find(s, p) {
        if k2 < k {
            assert(!occurs_at(s, p, k2));
        }
    }
}

proof fn lemma_trim_newlines(x: Seq<char>)
    requires
        x.len() > 0,
        x[0] != '\n',
    ensures
        trim_leading_newlines("\n\n"@ + x) == x,
{
    reveal_strlit("\n\n");
    assert("\n\n"@ =~= seq!['\n', '\n']);
    let y = seq!['\n', '\n'] + x;
    assert(y[0] == '\n');
    assert(y.drop_first() =~= seq!['\n'] + x);
    assert(y.drop_first()[0] == '\n');
    assert(y.drop_first().drop_first() =~= x);
    assert(trim_leading_newlines(x) == x);
    assert(trim_leading_newlines(y.drop_first()) == trim_leading_newlines(x));
    assert(trim_leading_newlines(y) == trim_leading_newlines(y.drop_first()));
}

/// The lines of frontmatter that a note carries.
pub open spec fn note_fields(
    tags: Seq<Seq<char>>,
    today: Seq<char>,
    status: Option<Seq<char>>,
    source: Option<Seq<char>>,
) -> Seq<char> {
    (if tags.len() > 0 {
        "tags: ["@ + join(tags, ", "@) + "]\n"@
    } else {
        Seq::empty()
    }) + "created: "@ + today + "\n"@ + "updated: "@ + today + "\n"@ + (match status {
        Some(s) => "status: "@ + s + "\n"@,
        None => Seq::empty(),
    }) + (match source {
        Some(s) => "source: "@ + s + "\n"@,
        None => Seq::empty(),
    })
}

proof fn lemma_note_fields_plain(
    tags: Seq<Seq<char>>,
    today: Seq<char>,
    status: Option<Seq<char>>,
    source: Option<Seq<char>>,
)
    requires
        one_line(today),
        forall|i: int| 0 <= i < tags.len() ==> one_line(#[trigger] tags[i]),
        status matches Some(s) ==> one_line(s),
        source matches Some(s) ==> one_line(s),
    ensures
        plain_lines(note_fields(tags, today, status, source)),
        note_fields(tags, today, status, source).len() > 0,
{
    reveal_strlit("tags: [");
    reveal_strlit(", ");
    reveal_strlit("]\n");
    reveal_strlit("]");
    reveal_strlit("created: ");
    reveal_strlit("updated: ");
    reveal_strlit("status: ");
    reveal_strlit("source: ");
    reveal_strlit("\n");
    let t = if tags.len() > 0 {
        "tags: ["@ + join(tags, ", "@) + "]\n"@
    } else {
        Seq::<char>::empty()
    };
    if tags.len() > 0 {
        lemma_join_one_line(tags, ", "@);
        let v = join(tags, ", "@) + "]"@;
        assert forall|j: int| 0 <= j < v.len() implies v[j] != '\n' by {
            if j < join(tags, ", "@).len() {
                assert(v[j] == join(tags, ", "@)[j]);
            }
        }
        lemma_field_line("tags: ["@, v);
        assert(t =~= "tags: ["@ + v + "\n"@);
    }
    lemma_field_line("created: "@, today);
    lemma_field_line("updated: "@, today);
    let c = "created: "@ + today + "\n"@;
    let u = "updated: "@ + today + "\n"@;
    let st = match status {
        Some(s) => "status: "@ + s + "\n"@,
        None => Seq::<char>::empty(),
    };
    let so = match source {
        Some(s) => "source: "@ + s + "\n"@,
        None => Seq::<char>::empty(),
    };
    if let Some(s) = status {
        lemma_field_line("status: "@, s);
    }
    if let Some(s) = source {
        lemma_field_line("source: "@, s);
    }
    lemma_plain_lines_concat(t, c);
    lemma_plain_lines_concat(t + c, u);
    lemma_plain_lines_concat(t + c + u, st);
    lemma_plain_lines_concat(t + c + u + st, so);
    assert(note_fields(tags, today, status, source) =~= t + c + u + st + so);
}

proof fn lemma_note_body(f: Seq<char>, b: Seq<char>)
    requires
        plain_lines(f),
        f.len() > 0,
        b.len() > 0,
        b[0] == '#',
    ensures
        crate::index::body_of(seq!['-', '-', '-', '\n'] + f + seq!['-', '-', '-', '\n', '\n'] + b) == b,
{
    let content = seq!['-', '-', '-', '\n'] + f + seq!['-', '-', '-', '\n', '\n'] + b;
    let after = content.skip(3);
    assert(after =~= seq!['\n'] + f + seq!['-', '-', '-', '\n', '\n'] + b);
    assert(content.subrange(0, 3) =~= crate::index::fence());
    assert(has_prefix(content, crate::index::fence()));
    let e = f.len() as int;
    assert(after[e] == f[e - 1]);
    assert(after.subrange(e, e + 4) =~= crate::index::closing_fence());
    assert forall|j: int| 0 <= j < e implies !occurs_at(after, crate::index::closing_fence(), j) by {
        if occurs_at(after, crate::index::closing_fence(), j) {
            assert(after.subrange(j, j + 4)[0] == after[j]);
            assert(after.subrange(j, j + 4)[1] == after[j + 1]);
            assert(after[j + 1] == f[j]);
            if j > 0 {
                assert(after[j] == f[j - 1]);
            }
        }
    }
    lemma_find_first(after, crate::index::closing_fence(), e);
    assert(after.skip(e + 4) =~= seq!['\n', '\n'] + b);
    reveal_strlit("\n\n");
    assert("\n\n"@ =~= seq!['\n', '\n']);
    lemma_trim_newlines(b);
}

proof fn lemma_note_title(title: Seq<char>, rest: Seq<char>, rel_path: Seq<char>)
    requires
        one_line(title),
        !has_prefix(title, "# "@),
        title.len() > 0 ==> title.last() != '\r',
    ensures
        crate::index::title_of(seq!['#', ' '] + title + seq!['\n'] + rest, rel_path) == title,
{
    let b = seq!['#', ' '] + title + seq!['\n'] + rest;
    let k: int = title.len() as int + 2;
    assert forall|j: int| 0 <= j < k implies b[j] != '\n' by {
        if j >= 2 {
            assert(b[j] == title[j - 2]);
        }
    }
    assert(b[k] == '\n');
    lemma_find_char(b, '\n', k);
    let first = b.take(k);
    assert(first =~= seq!['#', ' '] + title);
    assert(strip_cr(first) == first) by {
        if title.len() > 0 {
            assert(first.last() == title.last());
        }
    }
    assert(lines(b)[0] == first);
    assert(first.subrange(0, 2) =~= crate::index::heading_mark());
    assert(crate::index::first_heading(lines(b)) == Some(first));
    assert(first.skip(2) =~= title);
    reveal_strlit("# ");
    assert("# "@ =~= crate::index::heading_mark());
    assert(crate::index::strip_heading(first) == crate::index::strip_heading(title));
}

proof fn lemma_note_text_shape(
    title: Seq<char>,
    body: Seq<char>,
    tags: Seq<Seq<char>>,
    today: Seq<char>,
    status: Option<Seq<char>>,
    source: Option<Seq<char>>,
)
    ensures
        note_text(title, body, tags, today, status, source) == seq!['-', '-', '-', '\n'] + note_fields(tags, today, status, source)
            + seq!['-', '-', '-', '\n', '\n'] + (seq!['#', ' '] + title + seq!['\n'] + (seq!['\n'] + body + seq!['\n'])),
{
    reveal_strlit("---\n");
    reveal_strlit("---\n\n");
    reveal_strlit("# ");
    reveal_strlit("\n\n");
    reveal_strlit("\n");
    assert("---\n"@ =~= seq!['-', '-', '-', '\n']);
    assert("---\n\n"@ =~= seq!['-', '-', '-', '\n', '\n']);
    assert("# "@ =~= seq!['#', ' ']);
    assert("\n\n"@ =~= seq!['\n', '\n']);
    assert("\n"@ =~= seq!['\n']);
    assert(note_text(title, body, tags, today, status, source) =~= seq!['-', '-', '-', '\n'] + note_fields(tags, today, status, source)
            + seq!['-', '-', '-', '\n', '\n'] + (seq!['#', ' '] + title + seq!['\n'] + (seq!['\n'] + body + seq!['\n'])));
}

proof fn lemma_heading_text(title: Seq<char>, body: Seq<char>)
    ensures
        seq!['#', ' '] + title + seq!['\n'] + (seq!['\n'] + body + seq!['\n']) == "# "@ + title + "\n\n"@ + body + "\n"@,
{
    reveal_strlit("# ");
    reveal_strlit("\n\n");
    reveal_strlit("\n");
    assert("# "@ =~= seq!['#', ' ']);
    assert("\n\n"@ =~= seq!['\n', '\n']);
    assert("\n"@ =~= seq!['\n']);
    assert(seq!['#', ' '] + title + seq!['\n'] + (seq!['\n'] + body + seq!['\n']) =~= "# "@ + title + "\n\n"@ + body + "\n"@);
}

/// A note written by `note_content` is read back by the index with the
/// title it was given, and with the heading line, a blank line and the given
/// body as its body, provided no field value spans lines, and the title
/// neither starts with `# ` nor ends with a carriage return.
pub proof fn lemma_note_reads_back(
    title: Seq<char>,
    body: Seq<char>,
    tags: Seq<Seq<char>>,
    today: Seq<char>,
    status: Option<Seq<char>>,
    source: Option<Seq<char>>,
    rel_path: Seq<char>,
    collection: Seq<char>,
    d: Document,
)
    requires
        parsed_as(d, rel_path, note_text(title, body, tags, today, status, source), collection),
        one_line(title),
        one_line(today),
        forall|i: int| 0 <= i < tags.len() ==> one_line(#[trigger] tags[i]),
        status matches Some(s) ==> one_line(s),
        source matches Some(s) ==> one_line(s),
        !has_prefix(title, "# "@),
        title.len() > 0 ==> title.last() != '\r',
    ensures
        d.title@ == title,
        d.body@ == "# "@ + title + "\n\n"@ + body + "\n"@,
{
    let f = note_fields(tags, today, status, source);
    lemma_note_fields_plain(tags, today, status, source);
    let rest = seq!['\n'] + body + seq!['\n'];
    let b = seq!['#', ' '] + title + seq!['\n'] + rest;
    lemma_note_text_shape(title, body, tags, today, status, source);
    lemma_heading_text(title, body);
    lemma_note_body(f, b);
    lemma_note_title(title, rest, rel_path);
}

} // verus!
