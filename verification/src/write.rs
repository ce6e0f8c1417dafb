//! Document writing utilities: file-name slugs and collision-free paths.

use vstd::prelude::*;
use crate::store::path_join;
use crate::store::path_join_exec;
use crate::text::{
    all_ascii, ascii_lower, chars_of, decimal, decimal_u64, ends_with, find_char, has_suffix,
    join, join_exec, lemma_find_char, lemma_join_push, lowercase, push_chars,
    push_str, slice_chars, string_of, to_lowercase, views,
};

verus! {

/// A character a slug keeps: an ASCII lower-case letter or digit.
pub open spec fn slug_char(c: char) -> bool {
    ('a' <= c && c <= 'z') || ('0' <= c && c <= '9')
}

/// Each character that a slug does not keep replaced by `-`.
pub open spec fn dash_non_alnum(s: Seq<char>) -> Seq<char> {
    s.map_values(|c: char| if slug_char(c) { c } else { '-' })
}

/// The shape of a slug: only kept characters and dashes, neither first nor
/// last a dash, and no two dashes in a row.
pub open spec fn slug_shaped(s: Seq<char>) -> bool {
    &&& forall|i: int| 0 <= i < s.len() ==> slug_char(#[trigger] s[i]) || s[i] == '-'
    &&& s.len() > 0 ==> slug_char(s[0]) && slug_char(s.last())
    &&& forall|i: int| 0 <= i < s.len() - 1 && #[trigger] s[i] == '-' ==> s[i + 1] != '-'
}

/// Pieces joined with single dashes are slug-shaped when each piece is
/// non-empty and made of kept characters.
proof fn lemma_join_slug_shaped(ls: Seq<Seq<char>>)
    requires
        forall|k: int| 0 <= k < ls.len() ==> (#[trigger] ls[k]).len() > 0,
        forall|k: int, i: int| 0 <= k < ls.len() && 0 <= i < ls[k].len() ==> slug_char(#[trigger] ls[k][i]),
    ensures
        slug_shaped(join(ls, seq!['-'])),
        ls.len() > 0 ==> join(ls, seq!['-']).len() > 0,
    decreases ls.len(),
{
    if ls.len() == 1 {
        assert(slug_char(ls[0][0]));
        assert(slug_char(ls[0][ls[0].len() - 1]));
    } else if ls.len() > 1 {
        let rest = ls.drop_first();
        assert forall|k: int| 0 <= k < rest.len() implies (#[trigger] rest[k]).len() > 0 by {
            assert(rest[k] == ls[k + 1]);
        }
        assert forall|k: int, i: int| 0 <= k < rest.len() && 0 <= i < rest[k].len() implies slug_char(#[trigger] rest[k][i]) by {
            assert(rest[k] == ls[k + 1]);
            assert(slug_char(ls[k + 1][i]));
        }
        lemma_join_slug_shaped(rest);
        let a = ls[0];
        let j = join(rest, seq!['-']);
        let x = a + seq!['-'] + j;
        assert(x == join(ls, seq!['-']));
        assert(a.len() > 0);
        assert forall|i: int| 0 <= i < x.len() implies slug_char(#[trigger] x[i]) || x[i] == '-' by {
            if i < a.len() {
                assert(x[i] == a[i]);
                assert(slug_char(ls[0][i]));
            } else if i > a.len() {
                assert(x[i] == j[i - a.len() - 1]);
            }
        }
        assert(x[0] == a[0]);
        assert(slug_char(ls[0][0]));
        assert(x.last() == j.last());
        assert forall|i: int| 0 <= i < x.len() - 1 && #[trigger] x[i] == '-' implies x[i + 1] != '-' by {
            if i < a.len() {
                assert(x[i] == a[i]);
                assert(slug_char(ls[0][i]));
            } else if i == a.len() {
                assert(x[i + 1] == j[0]);
            } else {
                assert(x[i] == j[i - a.len() - 1]);
                assert(x[i + 1] == j[i - a.len()]);
            }
        }
    }
}

/// `str::split(c)`: the pieces between occurrences of `c` (one more piece
/// than there are occurrences).
pub open spec fn split_char(s: Seq<char>, c: char) -> Seq<Seq<char>>
    decreases s.len(),
{
    let k = find_char(s, c);
    if k >= s.len() {
        seq![s]
    } else {
        seq![s.take(k as int)] + split_char(s.skip(k + 1int), c)
    }
}

/// The non-empty pieces, in order.
pub open spec fn nonempty(ps: Seq<Seq<char>>) -> Seq<Seq<char>>
    decreases ps.len(),
{
    if ps.len() == 0 {
        Seq::empty()
    } else if ps[0].len() > 0 {
        seq![ps[0]] + nonempty(ps.drop_first())
    } else {
        nonempty(ps.drop_first())
    }
}

/// The kebab-case slug of an already lower-cased title: characters other
/// than ASCII letters and digits (accented and other non-ASCII letters
/// among them) become separators, and the non-empty runs between them are
/// joined with single dashes.
pub open spec fn slug(lowered: Seq<char>) -> Seq<char> {
    join(nonempty(split_char(dash_non_alnum(lowered), '-')), seq!['-'])
}

proof fn lemma_split_char_prefix(s: Seq<char>, c: char, start: int, i: int)
    requires
        0 <= start <= i < s.len(),
        s[i] == c,
        forall|j: int| start <= j < i ==> s[j] != c,
    ensures
        split_char(s.skip(start), c) == seq![s.subrange(start, i)] + split_char(s.skip(i + 1), c),
{
    let t = s.skip(start);
    lemma_find_char(t, c, i - start);
    assert(t.take(i - start) =~= s.subrange(start, i));
    assert(t.skip(i - start + 1) =~= s.skip(i + 1));
}

/// Where the first `c` is, what comes before it, and that it is `c`.
proof fn lemma_find_char_facts(s: Seq<char>, c: char)
    ensures
        find_char(s, c) <= s.len(),
        find_char(s, c) < s.len() ==> s[find_char(s, c) as int] == c,
        forall|j: int| 0 <= j < find_char(s, c) ==> s[j] != c,
    decreases s.len(),
{
    if s.len() > 0 && s[0] != c {
        lemma_find_char_facts(s.drop_first(), c);
        assert forall|j: int| 0 <= j < find_char(s, c) implies s[j] != c by {
            if j > 0 {
                assert(s[j] == s.drop_first()[j - 1]);
            }
        }
    }
}

/// Splitting at `c` and joining the pieces with `c` gives the text back.
proof fn lemma_split_join(s: Seq<char>, c: char)
    ensures
        join(split_char(s, c), seq![c]) == s,
    decreases s.len(),
{
    lemma_find_char_facts(s, c);
    let k = find_char(s, c);
    if k < s.len() {
        let rest = s.skip(k + 1int);
        lemma_split_join(rest, c);
        let ps = split_char(s, c);
        let tail = split_char(rest, c);
        assert(ps == seq![s.take(k as int)] + tail);
        assert(tail.len() >= 1) by {
            reveal_with_fuel(split_char, 2);
        }
        assert(ps.drop_first() =~= tail);
        assert(ps[0] == s.take(k as int));
        assert(join(ps, seq![c]) == s.take(k as int) + seq![c] + join(tail, seq![c]));
        assert(s.take(k as int) + seq![c] + rest =~= s);
    }
}

/// The pieces of a slug-shaped text between its dashes are all non-empty.
proof fn lemma_slug_pieces(s: Seq<char>)
    requires
        slug_shaped(s),
        s.len() > 0,
    ensures
        forall|k: int| 0 <= k < split_char(s, '-').len() ==> (#[trigger] split_char(s, '-')[k]).len() > 0,
    decreases s.len(),
{
    lemma_find_char_facts(s, '-');
    let k: int = find_char(s, '-') as int;
    if k < s.len() {
        assert(k > 0) by {
            assert(slug_char(s[0]));
        }
        assert(k < s.len() - 1) by {
            assert(slug_char(s[s.len() - 1]));
        }
        let rest = s.skip(k + 1);
        assert(s[k] == '-');
        assert(s[k + 1] != '-');
        assert forall|i: int| 0 <= i < rest.len() implies slug_char(#[trigger] rest[i]) || rest[i] == '-' by {
            assert(rest[i] == s[k + 1 + i]);
        }
        assert(slug_char(rest[0])) by {
            assert(rest[0] == s[k + 1]);
            assert(slug_char(s[k + 1]) || s[k + 1] == '-');
        }
        assert(rest.last() == s.last());
        assert forall|i: int| 0 <= i < rest.len() - 1 && #[trigger] rest[i] == '-' implies rest[i + 1] != '-' by {
            assert(rest[i] == s[k + 1 + i]);
            assert(rest[i + 1] == s[k + 1 + i + 1]);
        }
        lemma_slug_pieces(rest);
        let ps = split_char(s, '-');
        let tail = split_char(rest, '-');
        assert(ps == seq![s.take(k as int)] + tail);
        assert forall|j: int| 0 <= j < ps.len() implies (#[trigger] ps[j]).len() > 0 by {
            if j > 0 {
                assert(ps[j] == tail[j - 1]);
            }
        }
    }
}

/// Keeping the non-empty pieces of pieces that are all non-empty keeps them all.
proof fn lemma_nonempty_all(ps: Seq<Seq<char>>)
    requires
        forall|k: int| 0 <= k < ps.len() ==> (#[trigger] ps[k]).len() > 0,
    ensures
        nonempty(ps) == ps,
    decreases ps.len(),
{
    if ps.len() > 0 {
        let rest = ps.drop_first();
        assert forall|k: int| 0 <= k < rest.len() implies (#[trigger] rest[k]).len() > 0 by {
            assert(rest[k] == ps[k + 1]);
        }
        lemma_nonempty_all(rest);
        assert(seq![ps[0]] + rest =~= ps);
    }
}

/// A slug is its own slug: a slug-shaped text is ASCII, lowering it as ASCII
/// leaves it unchanged, and its slug is itself. With the contract of
/// `slugify_title` (on ASCII titles the slug of the ASCII-lowered title),
/// slugifying a slug gives it back.
pub proof fn lemma_slugify_idempotent(s: Seq<char>)
    requires
        slug_shaped(s),
    ensures
        all_ascii(s),
        ascii_lower(s) == s,
        slug(ascii_lower(s)) == s,
{
    assert(ascii_lower(s) =~= s);
    assert(dash_non_alnum(s) =~= s);
    if s.len() == 0 {
        lemma_find_char_facts(s, '-');
        assert(split_char(s, '-') == seq![s]);
        assert(seq![s][0] == s);
        assert(seq![s].drop_first() =~= Seq::<Seq<char>>::empty());
        assert(nonempty(Seq::<Seq<char>>::empty()) =~= Seq::<Seq<char>>::empty());
        assert(nonempty(seq![s]) == nonempty(seq![s].drop_first()));
        assert(nonempty(split_char(s, '-')) =~= Seq::<Seq<char>>::empty());
    } else {
        lemma_slug_pieces(s);
        lemma_nonempty_all(split_char(s, '-'));
        lemma_split_join(s, '-');
    }
}

/// Converts a title to a URL-safe kebab-case slug for file names: only
/// ASCII lower-case letters, digits and single dashes between them.
pub fn slugify_title(title: &str) -> (r: String)
    ensures
        r@ == slug(lowercase(title@)),
        all_ascii(title@) ==> r@ == slug(ascii_lower(title@)),
        slug_shaped(r@),
{
    let lowered = to_lowercase(title);
    let cs = chars_of(lowered.as_str());
    let ghost m = dash_non_alnum(cs@);
    let mut mapped: Vec<char> = Vec::new();
    let mut i: usize = 0;
    while i < cs.len()
        invariant
            i <= cs.len(),
            m == dash_non_alnum(cs@),
            mapped@ == m.take(i as int),
        decreases cs.len() - i,
    {
        let c = cs[i];
        if ('a' <= c && c <= 'z') || ('0' <= c && c <= '9') {
            mapped.push(c);
        } else {
            mapped.push('-');
        }
        i = i + 1;
        assert(mapped@ =~= m.take(i as int));
    }
    assert(mapped@ =~= m);
    // collect the non-empty pieces between dashes
    let mut pieces: Vec<Vec<char>> = Vec::new();
    let mut start: usize = 0;
    let mut j: usize = 0;
    assert(m.skip(0) =~= m);
    assert(views(pieces@) =~= Seq::<Seq<char>>::empty());
    while j < mapped.len()
        invariant
            start <= j <= mapped.len(),
            mapped@ == m,
            forall|k: int| start <= k < j ==> m[k] != '-',
            nonempty(split_char(m, '-')) == views(pieces@) + nonempty(split_char(m.skip(start as int), '-')),
            m == dash_non_alnum(cs@),
            forall|k: int| 0 <= k < views(pieces@).len() ==> (#[trigger] views(pieces@)[k]).len() > 0,
            forall|k: int, i: int|
                0 <= k < views(pieces@).len() && 0 <= i < views(pieces@)[k].len() ==> slug_char(
                    #[trigger] views(pieces@)[k][i],
                ),
        decreases mapped.len() - j,
    {
        if mapped[j] == '-' {
            proof {
                lemma_split_char_prefix(m, '-', start as int, j as int);
                let piece = m.subrange(start as int, j as int);
                let rest = split_char(m.skip(j + 1), '-');
                assert((seq![piece] + rest).drop_first() =~= rest);
            }
            if j > start {
                let piece = slice_chars(mapped.as_slice(), start, j);
                let ghost prev = views(pieces@);
                pieces.push(piece);
                proof {
                    assert(views(pieces@) =~= prev + seq![piece@]);
                    assert(prev + nonempty(split_char(m.skip(start as int), '-')) =~= views(pieces@)
                        + nonempty(split_char(m.skip(j + 1), '-')));
                }
            }
            start = j + 1;
        }
        j = j + 1;
    }
    proof {
        let t = m.skip(start as int);
        lemma_find_char(t, '-', t.len() as int);
        assert(split_char(t, '-') == seq![t]);
        assert(seq![t].drop_first() =~= Seq::<Seq<char>>::empty());
    }
    let ghost t = m.skip(start as int);
    assert(nonempty(seq![t]) == (if t.len() > 0 { seq![t] } else { Seq::<Seq<char>>::empty() })
        + nonempty(Seq::<Seq<char>>::empty())) by {
        assert(seq![t][0] == t);
        assert(seq![t].drop_first() =~= Seq::<Seq<char>>::empty());
        assert(nonempty(Seq::<Seq<char>>::empty()) =~= Seq::<Seq<char>>::empty());
        if t.len() > 0 {
            assert(nonempty(seq![t]) =~= seq![t]);
        }
    }
    if start < mapped.len() {
        let piece = slice_chars(mapped.as_slice(), start, mapped.len());
        assert(piece@ =~= m.skip(start as int));
        let ghost prev = views(pieces@);
        pieces.push(piece);
        assert(views(pieces@) =~= prev + seq![piece@]);
        assert(nonempty(split_char(m, '-')) =~= views(pieces@));
        proof {
            assert forall|i: int| 0 <= i < piece@.len() implies slug_char(#[trigger] piece@[i]) by {
                assert(piece@[i] == m[start + i]);
                assert(m[start + i] != '-');
            }
            assert forall|k: int, i: int|
                0 <= k < views(pieces@).len() && 0 <= i < views(pieces@)[k].len() implies slug_char(
                    #[trigger] views(pieces@)[k][i],
                ) by {
                if k < prev.len() {
                    assert(views(pieces@)[k] == prev[k]);
                } else {
                    assert(views(pieces@)[k] == piece@);
                }
            }
            assert forall|k: int| 0 <= k < views(pieces@).len() implies (#[trigger] views(pieces@)[k]).len() > 0 by {
                if k < prev.len() {
                    assert(views(pieces@)[k] == prev[k]);
                }
            }
        }
    } else {
        assert(m.skip(start as int).len() == 0);
        assert(nonempty(split_char(m, '-')) =~= views(pieces@));
    }
    let mut dash: Vec<char> = Vec::new();
    dash.push('-');
    assert(dash@ =~= seq!['-']);
    proof {
        lemma_join_slug_shaped(views(pieces@));
    }
    join_exec(&pieces, dash.as_slice())
}

/// `trim_end_matches(".md")`: every trailing `.md` removed.
pub open spec fn trim_md(s: Seq<char>) -> Seq<char>
    decreases s.len(),
{
    if s.len() >= 3 && has_suffix(s, seq!['.', 'm', 'd']) {
        trim_md(s.take(s.len() - 3))
    } else {
        s
    }
}

/// The `i`-th candidate file name: the base name first, then
/// `<stem>-<i>.md` for `i` in 2..=99.
pub open spec fn candidate_name(base: Seq<char>, i: int) -> Seq<char> {
    if i <= 1 {
        base
    } else {
        trim_md(base) + seq!['-'] + decimal(i as nat) + seq!['.', 'm', 'd']
    }
}

/// The `i`-th candidate path inside `dir`.
pub open spec fn candidate_path(dir: Seq<char>, base: Seq<char>, i: int) -> Seq<char> {
    path_join(dir, candidate_name(base, i))
}

/// The existence check, called on a path that reads `p`, answered `b`.
pub open spec fn answered<F: Fn(&str) -> bool>(is_taken: F, p: Seq<char>, b: bool) -> bool {
    exists|s: &str| s@ == p && call_ensures(is_taken, (s,), b)
}

pub(crate) fn trim_md_exec(s: &[char]) -> (r: Vec<char>)
    ensures
        r@ == trim_md(s@),
{
    let mut e: usize = s.len();
    let mut md: Vec<char> = Vec::new();
    md.push('.');
    md.push('m');
    md.push('d');
    assert(md@ =~= seq!['.', 'm', 'd']);
    let mut cur = slice_chars(s, 0, e);
    assert(cur@ =~= s@);
    while e >= 3 && ends_with(cur.as_slice(), md.as_slice())
        invariant
            e <= s.len(),
            cur@ == s@.take(e as int),
            md@ == seq!['.', 'm', 'd'],
            trim_md(s@) == trim_md(cur@),
        decreases e,
    {
        e = e - 3;
        cur = slice_chars(s, 0, e);
        assert(cur@ =~= s@.take(e + 3).take((e + 3) - 3));
    }
    cur
}

/// The name `<stem>-<i>.md`.
fn numbered_name(base: &str, i: u64) -> (r: String)
    requires
        2 <= i,
    ensures
        r@ == candidate_name(base@, i as int),
{
    let b = chars_of(base);
    let stem = trim_md_exec(b.as_slice());
    let mut r = string_of(stem.as_slice());
    push_str(&mut r, "-");
    proof {
        reveal_strlit("-");
    }
    let ds = decimal_u64(i);
    push_chars(&mut r, ds.as_slice());
    push_str(&mut r, ".md");
    proof {
        reveal_strlit(".md");
    }
    assert(r@ =~= candidate_name(base@, i as int));
    r
}

/// Finds a non-conflicting path by appending numeric suffixes (`-2`, `-3`,
/// ... `-99`) to the base name, so that a write never silently overwrites an
/// existing note. `is_taken` tells whether a path exists; when every
/// candidate is taken, there is no path to give.
pub fn find_available_path<F: Fn(&str) -> bool>(dir: &str, base_name: &str, is_taken: F) -> (r:
    Option<String>)
    requires
        forall|s: &str| #[trigger] is_taken.requires((s,)),
    ensures
        match r {
            Some(p) => exists|i: int|
                1 <= i <= 99 && p@ == candidate_path(dir@, base_name@, i) && answered(
                    is_taken,
                    p@,
                    false,
                ) && forall|j: int|
                    1 <= j < i ==> #[trigger] answered(is_taken, candidate_path(dir@, base_name@, j), true),
            None => forall|j: int|
                1 <= j <= 99 ==> #[trigger] answered(is_taken, candidate_path(dir@, base_name@, j), true),
        },
{
    let first = path_join_exec(dir, base_name);
    let taken = is_taken(first.as_str());
    if !taken {
        assert(answered(is_taken, first@, false));
        assert(first@ == candidate_path(dir@, base_name@, 1));
        assert(1 <= 1 <= 99 && first@ == candidate_path(dir@, base_name@, 1) && answered(is_taken, first@, false) && forall|j: int|
                1 <= j < 1 ==> #[trigger] answered(is_taken, candidate_path(dir@, base_name@, j), true));
        return Some(first);
    }
    assert(answered(is_taken, candidate_path(dir@, base_name@, 1), true));
    let mut i: u64 = 2;
    while i < 100
        invariant
            2 <= i <= 100,
            forall|s: &str| #[trigger] is_taken.requires((s,)),
            forall|j: int|
                1 <= j < i ==> #[trigger] answered(is_taken, candidate_path(dir@, base_name@, j), true),
        decreases 100 - i,
    {
        let name = numbered_name(base_name, i);
        let candidate = path_join_exec(dir, name.as_str());
        let t = is_taken(candidate.as_str());
        if !t {
            assert(answered(is_taken, candidate@, false));
            assert(candidate@ == candidate_path(dir@, base_name@, i as int));
            assert(1 <= i <= 99 && candidate@ == candidate_path(dir@, base_name@, i as int) && answered(is_taken, candidate@, false) && forall|j: int|
                1 <= j < i ==> #[trigger] answered(is_taken, candidate_path(dir@, base_name@, j), true));
            return Some(candidate);
        }
        assert(answered(is_taken, candidate_path(dir@, base_name@, i as int), true));
        i = i + 1;
    }
    None
}

} // verus!
