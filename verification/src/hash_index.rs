//! Content-hash indexes: relative path → content hash, and their sidecar text.
//!
//! The sidecar is a newline-delimited list of `<hash> <path>` lines, sorted.
//! Reading splits each line at its first space; a later line for the same
//! path replaces an earlier one; lines without a space are ignored.

use vstd::prelude::*;
use crate::order::{
    is_permutation, is_sorted_by, key_view, keys_view, lemma_lex_asymmetric,
    lemma_lex_irreflexive, lex_lt, ord_before, sorted_positions, tuple_lt,
};
use crate::text::{
    chars_eq, chars_of, find_char, find_char_exec, join, join_exec, lemma_find_char, lemma_lines_join,
    lines, lines_exec, slice_chars, string_of, views,
};

verus! {

/// Views of (path, hash) entries.
pub open spec fn pair_views(es: Seq<(String, String)>) -> Seq<(Seq<char>, Seq<char>)> {
    es.map_values(|e: (String, String)| (e.0@, e.1@))
}

/// No two entries share a key.
pub open spec fn keys_distinct(ps: Seq<(Seq<char>, Seq<char>)>) -> bool {
    forall|i: int, j: int| 0 <= i < j < ps.len() ==> ps[i].0 != ps[j].0
}

/// The map built by inserting the entries in order (a later entry for a key
/// replaces an earlier one).
pub open spec fn map_of(ps: Seq<(Seq<char>, Seq<char>)>) -> Map<Seq<char>, Seq<char>>
    decreases ps.len(),
{
    if ps.len() == 0 {
        Map::empty()
    } else {
        map_of(ps.drop_last()).insert(ps.last().0, ps.last().1)
    }
}

proof fn lemma_map_of(ps: Seq<(Seq<char>, Seq<char>)>)
    ensures
        map_of(ps).dom().finite(),
        forall|k: Seq<char>|
            #![auto]
            map_of(ps).contains_key(k) <==> exists|i: int| 0 <= i < ps.len() && ps[i].0 == k,
        keys_distinct(ps) ==> forall|i: int| #![auto] 0 <= i < ps.len() ==> map_of(ps)[ps[i].0] == ps[i].1,
    decreases ps.len(),
{
    if ps.len() > 0 {
        let init = ps.drop_last();
        lemma_map_of(init);
        assert forall|k: Seq<char>| #![auto] map_of(ps).contains_key(k) <==> exists|i: int|
            0 <= i < ps.len() && ps[i].0 == k by {
            if map_of(ps).contains_key(k) && k != ps.last().0 {
                let i = choose|i: int| 0 <= i < init.len() && init[i].0 == k;
                assert(ps[i].0 == k);
            }
            if exists|i: int| 0 <= i < ps.len() && ps[i].0 == k {
                let i = choose|i: int| 0 <= i < ps.len() && ps[i].0 == k;
                if i < ps.len() - 1 {
                    assert(init[i].0 == k);
                }
            }
        }
        if keys_distinct(ps) {
            assert(keys_distinct(init));
            assert forall|i: int| #![auto] 0 <= i < ps.len() implies map_of(ps)[ps[i].0] == ps[i].1 by {
                if i < ps.len() - 1 {
                    assert(init[i] == ps[i]);
                    assert(ps[i].0 != ps.last().0);
                }
            }
        }
    }
}

proof fn lemma_map_of_update(ps: Seq<(Seq<char>, Seq<char>)>, i: int, v: Seq<char>)
    requires
        keys_distinct(ps),
        0 <= i < ps.len(),
    ensures
        keys_distinct(ps.update(i, (ps[i].0, v))),
        map_of(ps.update(i, (ps[i].0, v))) == map_of(ps).insert(ps[i].0, v),
{
    let qs = ps.update(i, (ps[i].0, v));
    assert(keys_distinct(qs)) by {
        assert forall|a: int, b: int| 0 <= a < b < qs.len() implies qs[a].0 != qs[b].0 by {
            assert(qs[a].0 == ps[a].0 && qs[b].0 == ps[b].0);
        }
    }
    lemma_map_of(ps);
    lemma_map_of(qs);
    assert forall|k: Seq<char>| #![auto] map_of(qs).contains_key(k) <==> map_of(ps).insert(
        ps[i].0,
        v,
    ).contains_key(k) by {
        if map_of(qs).contains_key(k) {
            let j = choose|j: int| 0 <= j < qs.len() && qs[j].0 == k;
            assert(ps[j].0 == k);
        }
        if map_of(ps).contains_key(k) {
            let j = choose|j: int| 0 <= j < ps.len() && ps[j].0 == k;
            assert(qs[j].0 == k);
        }
        if k == ps[i].0 {
            assert(qs[i].0 == k);
        }
    }
    assert forall|k: Seq<char>| #![auto] map_of(qs).contains_key(k) implies map_of(qs)[k] == map_of(
        ps,
    ).insert(ps[i].0, v)[k] by {
        let j = choose|j: int| 0 <= j < qs.len() && qs[j].0 == k;
        if j != i {
            assert(qs[j] == ps[j]);
            assert(ps[j].0 != ps[i].0);
        }
    }
    assert(map_of(qs) =~= map_of(ps).insert(ps[i].0, v));
}

/// Content hash index: relative path → content hash.
pub struct HashIndex {
    entries: Vec<(String, String)>,
}

impl HashIndex {
    /// The (path, hash) entries, as views.
    pub closed spec fn pairs(&self) -> Seq<(Seq<char>, Seq<char>)> {
        pair_views(self.entries@)
    }

    #[verifier::type_invariant]
    closed spec fn inv(&self) -> bool {
        keys_distinct(self.pairs())
    }
}

impl View for HashIndex {
    type V = Map<Seq<char>, Seq<char>>;

    closed spec fn view(&self) -> Map<Seq<char>, Seq<char>> {
        map_of(self.pairs())
    }
}

impl HashIndex {
    /// An empty index.
    pub fn new() -> (r: HashIndex)
        ensures
            r@ == Map::<Seq<char>, Seq<char>>::empty(),
    {
        let r = HashIndex { entries: Vec::new() };
        assert(r.pairs() =~= Seq::<(Seq<char>, Seq<char>)>::empty());
        r
    }

    /// The position of the entry for `path`.
    fn position(&self, path: &str) -> (r: Option<usize>)
        ensures
            match r {
                Some(i) => i < self.entries@.len() && self.pairs()[i as int].0 == path@,
                None => forall|i: int| 0 <= i < self.pairs().len() ==> self.pairs()[i].0 != path@,
            },
    {
        let target = chars_of(path);
        let mut i: usize = 0;
        while i < self.entries.len()
            invariant
                i <= self.entries@.len(),
                target@ == path@,
                forall|j: int| 0 <= j < i ==> self.pairs()[j].0 != path@,
            decreases self.entries.len() - i,
        {
            let k = chars_of(self.entries[i].0.as_str());
            assert(self.pairs()[i as int].0 == self.entries@[i as int].0@);
            if chars_eq(k.as_slice(), target.as_slice()) {
                return Some(i);
            }
            i = i + 1;
        }
        None
    }

    /// The hash recorded for `path`.
    pub fn get(&self, path: &str) -> (r: Option<&String>)
        ensures
            match r {
                Some(h) => self@.contains_key(path@) && self@[path@] == h@,
                None => !self@.contains_key(path@),
            },
    {
        proof {
            use_type_invariant(self);
            lemma_map_of(self.pairs());
        }
        match self.position(path) {
            Some(i) => {
                assert(self.pairs()[i as int].1 == self.entries@[i as int].1@);
                Some(&self.entries[i].1)
            },
            None => None,
        }
    }

    /// Whether `path` has a recorded hash.
    pub fn contains_key(&self, path: &str) -> (r: bool)
        ensures
            r == self@.contains_key(path@),
    {
        self.get(path).is_some()
    }

    /// Records `hash` for `path`, replacing any earlier hash.
    pub fn insert(&mut self, path: String, hash: String)
        ensures
            final(self)@ == old(self)@.insert(path@, hash@),
    {
        proof {
            use_type_invariant(&*self);
        }
        let pos = self.position(path.as_str());
        let ghost ps = self.pairs();
        let mut es: Vec<(String, String)> = Vec::new();
        std::mem::swap(&mut es, &mut self.entries);
        assert(pair_views(es@) == ps);
        match pos {
            Some(i) => {
                let ghost k = ps[i as int].0;
                es.set(i, (path, hash));
                proof {
                    lemma_map_of_update(ps, i as int, hash@);
                    assert(pair_views(es@) =~= ps.update(i as int, (k, hash@)));
                }
            },
            None => {
                es.push((path, hash));
                proof {
                    assert(pair_views(es@) =~= ps.push((path@, hash@)));
                    assert(pair_views(es@).drop_last() =~= ps);
                }
            },
        }
        self.entries = es;
    }

    /// The number of recorded paths.
    pub fn len(&self) -> (r: usize)
        ensures
            r == self@.len(),
    {
        proof {
            use_type_invariant(self);
            lemma_dom_len(self.pairs());
        }
        self.entries.len()
    }

    /// Whether no path is recorded.
    pub fn is_empty(&self) -> (r: bool)
        ensures
            r == (self@ == Map::<Seq<char>, Seq<char>>::empty()),
    {
        proof {
            lemma_map_of(self.pairs());
            if self.entries@.len() > 0 {
                assert(self@.contains_key(self.pairs()[0].0));
            } else {
                assert(self@ =~= Map::<Seq<char>, Seq<char>>::empty());
            }
        }
        self.entries.len() == 0
    }
}

/// The keys of a sequence of entries.
pub open spec fn keys_of(ps: Seq<(Seq<char>, Seq<char>)>) -> Seq<Seq<char>> {
    ps.map_values(|p: (Seq<char>, Seq<char>)| p.0)
}

proof fn lemma_dom_len(ps: Seq<(Seq<char>, Seq<char>)>)
    requires
        keys_distinct(ps),
    ensures
        map_of(ps).dom().len() == ps.len(),
{
    lemma_map_of(ps);
    let ks = keys_of(ps);
    assert(ks.no_duplicates());
    assert forall|k: Seq<char>| map_of(ps).dom().contains(k) <==> ks.to_set().contains(k) by {
        if map_of(ps).contains_key(k) {
            let i = choose|i: int| 0 <= i < ps.len() && ps[i].0 == k;
            assert(ks[i] == k);
        }
        if ks.to_set().contains(k) {
            let i = choose|i: int| 0 <= i < ks.len() && ks[i] == k;
            assert(ps[i].0 == k);
        }
    }
    assert(map_of(ps).dom() =~= ks.to_set());
    ks.unique_seq_to_set();
}

// ---------------------------------------------------------------------------
// Sidecar text
// ---------------------------------------------------------------------------

/// One sidecar line: `<hash> <path>`.
pub open spec fn hash_line(path: Seq<char>, hash: Seq<char>) -> Seq<char> {
    hash + seq![' '] + path
}

/// Splits a sidecar line at its first space into (hash, path).
pub open spec fn split_line(l: Seq<char>) -> Option<(Seq<char>, Seq<char>)> {
    let k = find_char(l, ' ');
    if k < l.len() {
        Some((l.take(k as int), l.skip(k + 1int)))
    } else {
        None
    }
}

/// The index read from sidecar lines, in order.
pub open spec fn hashes_of_lines(ls: Seq<Seq<char>>) -> Map<Seq<char>, Seq<char>>
    decreases ls.len(),
{
    if ls.len() == 0 {
        Map::empty()
    } else {
        let m = hashes_of_lines(ls.drop_last());
        match split_line(ls.last()) {
            Some((h, p)) => m.insert(p, h),
            None => m,
        }
    }
}

/// Lines in non-decreasing lexicographic order.
pub open spec fn lines_sorted(ls: Seq<Seq<char>>) -> bool {
    forall|i: int, j: int| 0 <= i < j < ls.len() ==> !lex_lt(ls[j], ls[i])
}

/// The sidecar lines of `m` with its keys in the order `ks`.
pub open spec fn lines_in_order(m: Map<Seq<char>, Seq<char>>, ks: Seq<Seq<char>>) -> Seq<Seq<char>> {
    ks.map_values(|k: Seq<char>| hash_line(k, m[k]))
}

/// `t` is the sidecar text of `m`: one `<hash> <path>` line per entry,
/// sorted, joined with `"\n"`.
pub open spec fn is_hashes_text(m: Map<Seq<char>, Seq<char>>, t: Seq<char>) -> bool {
    exists|ks: Seq<Seq<char>>|
        {
            &&& ks.no_duplicates()
            &&& ks.to_set() == m.dom()
            &&& lines_sorted(lines_in_order(m, ks))
            &&& t == join(lines_in_order(m, ks), seq!['\n'])
        }
}

/// Parses sidecar text into a hash index.
pub fn parse_hashes(content: &str) -> (r: HashIndex)
    ensures
        r@ == hashes_of_lines(lines(content@)),
{
    let cs = chars_of(content);
    let ls = lines_exec(cs.as_slice());
    let mut r = HashIndex::new();
    let mut i: usize = 0;
    while i < ls.len()
        invariant
            i <= ls.len(),
            views(ls@) == lines(content@),
            r@ == hashes_of_lines(views(ls@).take(i as int)),
        decreases ls.len() - i,
    {
        let ghost pre = views(ls@).take(i + 1);
        assert(pre.drop_last() =~= views(ls@).take(i as int));
        assert(pre.last() == ls@[i as int]@);
        let line = &ls[i];
        let k = find_char_exec(line.as_slice(), ' ');
        if k < line.len() {
            let hash = slice_chars(line.as_slice(), 0, k);
            let path = slice_chars(line.as_slice(), k + 1, line.len());
            assert(hash@ =~= line@.take(k as int));
            assert(path@ =~= line@.skip(k + 1));
            r.insert(string_of(path.as_slice()), string_of(hash.as_slice()));
        }
        i = i + 1;
    }
    assert(views(ls@).take(ls.len() as int) =~= views(ls@));
    r
}

proof fn lemma_single_key_order(a: Seq<char>, b: Seq<char>)
    ensures
        tuple_lt(seq![a], seq![b]) == lex_lt(a, b),
{
    assert(seq![a][0] == a && seq![b][0] == b);
    if a == b {
        lemma_lex_irreflexive(a);
        assert(seq![a].drop_first() =~= Seq::<Seq<char>>::empty());
        assert(seq![b].drop_first() =~= Seq::<Seq<char>>::empty());
        assert(!tuple_lt(Seq::<Seq<char>>::empty(), Seq::<Seq<char>>::empty()));
        assert(tuple_lt(seq![a], seq![b]) == tuple_lt(seq![a].drop_first(), seq![b].drop_first()));
    }
}

/// Writes a hash index as sidecar text: one `<hash> <path>` line per entry,
/// sorted, joined with newlines.
pub fn serialize_hashes(h: &HashIndex) -> (r: String)
    ensures
        is_hashes_text(h@, r@),
{
    proof {
        use_type_invariant(h);
        lemma_map_of(h.pairs());
    }
    let ghost ps = h.pairs();
    let ghost m = h@;
    let mut keys: Vec<Vec<Vec<char>>> = Vec::new();
    let mut lines_v: Vec<Vec<char>> = Vec::new();
    let mut i: usize = 0;
    while i < h.entries.len()
        invariant
            i <= h.entries@.len(),
            ps == h.pairs(),
            keys@.len() == i,
            lines_v@.len() == i,
            forall|j: int| 0 <= j < i ==> lines_v@[j]@ == hash_line(ps[j].0, ps[j].1),
            forall|j: int| 0 <= j < i ==> key_view(keys@[j]@) == seq![lines_v@[j]@],
        decreases h.entries.len() - i,
    {
        let mut line = chars_of(h.entries[i].1.as_str());
        line.push(' ');
        let p = chars_of(h.entries[i].0.as_str());
        let mut k: usize = 0;
        let ghost base = line@;
        while k < p.len()
            invariant
                k <= p.len(),
                line@ == base + p@.take(k as int),
            decreases p.len() - k,
        {
            line.push(p[k]);
            k = k + 1;
            assert(line@ =~= base + p@.take(k as int));
        }
        assert(line@ =~= hash_line(ps[i as int].0, ps[i as int].1));
        let mut key: Vec<Vec<char>> = Vec::new();
        key.push(line.clone());
        assert(key_view(key@) =~= seq![line@]);
        keys.push(key);
        lines_v.push(line);
        i = i + 1;
    }
    let order = sorted_positions(&keys, false);
    let mut out: Vec<Vec<char>> = Vec::new();
    let mut j: usize = 0;
    while j < order.len()
        invariant
            j <= order.len(),
            is_permutation(order@, keys@.len() as nat),
            keys@.len() == lines_v@.len(),
            out@.len() == j,
            forall|a: int| 0 <= a < j ==> out@[a]@ == lines_v@[order@[a] as int]@,
        decreases order.len() - j,
    {
        out.push(lines_v[order[j]].clone());
        j = j + 1;
    }
    let mut nl: Vec<char> = Vec::new();
    nl.push('\n');
    assert(nl@ =~= seq!['\n']);
    let r = join_exec(&out, nl.as_slice());
    proof {
        let ks = order@.map_values(|x: usize| ps[x as int].0);
        assert(ks.no_duplicates()) by {
            assert forall|a: int, b: int| 0 <= a < ks.len() && 0 <= b < ks.len() && a != b implies ks[a]
                != ks[b] by {
                if a < b {
                    assert(order@[a] != order@[b]);
                } else {
                    assert(order@[b] != order@[a]);
                }
            }
        }
        assert forall|k: Seq<char>| ks.to_set().contains(k) <==> m.dom().contains(k) by {
            if ks.to_set().contains(k) {
                let a = choose|a: int| 0 <= a < ks.len() && ks[a] == k;
                assert(m.contains_key(ps[order@[a] as int].0));
            }
            if m.dom().contains(k) {
                let x = choose|x: int| 0 <= x < ps.len() && ps[x].0 == k;
                lemma_in_perm(order@, ps.len(), x);
                let a = choose|a: int| 0 <= a < order@.len() && order@[a] as int == x;
                assert(ks[a] == k);
            }
        }
        assert(ks.to_set() =~= m.dom());
        assert(views(out@) =~= lines_in_order(m, ks)) by {
            assert forall|a: int| 0 <= a < ks.len() implies views(out@)[a] == lines_in_order(m, ks)[a] by {
                let x = order@[a] as int;
                assert(m[ps[x].0] == ps[x].1);
            }
        }
        let kv = keys_view(keys@);
        assert forall|a: int, b: int| 0 <= a < b < ks.len() implies !lex_lt(
            lines_in_order(m, ks)[b],
            lines_in_order(m, ks)[a],
        ) by {
            let x = order@[a] as int;
            let y = order@[b] as int;
            assert(ord_before(kv, false, x, y));
            assert(kv[x] == key_view(keys@[x]@));
            assert(kv[y] == key_view(keys@[y]@));
            lemma_single_key_order(lines_v@[x]@, lines_v@[y]@);
            lemma_lex_asymmetric(lines_v@[x]@, lines_v@[y]@);
            lemma_lex_irreflexive(lines_v@[x]@);
            assert(views(out@)[a] == lines_v@[x]@);
            assert(views(out@)[b] == lines_v@[y]@);
        }
        assert(r@ == join(lines_in_order(m, ks), seq!['\n']));
    }
    r
}

proof fn lemma_in_perm(p: Seq<usize>, n: nat, x: int)
    requires
        is_permutation(p, n),
        0 <= x < n,
    ensures
        exists|a: int| 0 <= a < p.len() && p[a] as int == x,
{
    let s = p.map_values(|v: usize| v as int);
    assert(s.no_duplicates()) by {
        assert forall|a: int, b: int| 0 <= a < s.len() && 0 <= b < s.len() && a != b implies s[a]
            != s[b] by {
            if a < b {
                assert(p[a] != p[b]);
            } else {
                assert(p[b] != p[a]);
            }
        }
    }
    s.unique_seq_to_set();
    let full = Set::new(|v: int| 0 <= v < n);
    lemma_range_set(n);
    assert(s.to_set().subset_of(full));
    if !s.to_set().contains(x) {
        assert(s.to_set().subset_of(full.remove(x)));
        vstd::set_lib::lemma_len_subset(s.to_set(), full.remove(x));
    }
    let a = choose|a: int| 0 <= a < s.len() && s[a] == x;
    assert(p[a] as int == x);
}

proof fn lemma_range_set(n: nat)
    ensures
        Set::new(|v: int| 0 <= v < n).finite(),
        Set::new(|v: int| 0 <= v < n).len() == n,
    decreases n,
{
    if n == 0 {
        assert(Set::new(|v: int| 0 <= v < n) =~= Set::<int>::empty());
    } else {
        lemma_range_set((n - 1) as nat);
        assert(Set::new(|v: int| 0 <= v < n) =~= Set::new(|v: int| 0 <= v < (n - 1) as nat).insert(
            n - 1,
        ));
    }
}

proof fn lemma_fold_lines(m: Map<Seq<char>, Seq<char>>, ks: Seq<Seq<char>>)
    requires
        ks.no_duplicates(),
        forall|i: int| 0 <= i < ks.len() ==> m.contains_key(ks[i]),
        forall|k: Seq<char>, j: int| m.contains_key(k) && 0 <= j < m[k].len() ==> m[k][j] != ' ',
    ensures
        hashes_of_lines(lines_in_order(m, ks)) == Map::new(|k: Seq<char>| ks.contains(k), |k: Seq<char>| m[k]),
    decreases ks.len(),
{
    let target = Map::new(|k: Seq<char>| ks.contains(k), |k: Seq<char>| m[k]);
    if ks.len() == 0 {
        assert(target =~= Map::empty());
    } else {
        let init = ks.drop_last();
        let k = ks.last();
        lemma_fold_lines(m, init);
        assert(lines_in_order(m, ks).drop_last() =~= lines_in_order(m, init));
        let l = hash_line(k, m[k]);
        assert(lines_in_order(m, ks).last() == l);
        assert forall|j: int| 0 <= j < m[k].len() implies l[j] != ' ' by {
            assert(l[j] == m[k][j]);
        }
        lemma_find_char(l, ' ', m[k].len() as int);
        assert(l.take(m[k].len() as int) =~= m[k]);
        assert(l.skip(m[k].len() + 1int) =~= k);
        assert(hashes_of_lines(lines_in_order(m, ks)) =~= target) by {
            assert forall|x: Seq<char>| #![auto] target.contains_key(x) == (init.contains(x) || x == k) by {
                if ks.contains(x) && x != k {
                    let a = choose|a: int| 0 <= a < ks.len() && ks[a] == x;
                    assert(init[a] == x);
                }
                if init.contains(x) {
                    let a = choose|a: int| 0 <= a < init.len() && init[a] == x;
                    assert(ks[a] == x);
                }
            }
        }
    }
}

/// What a read of the sidecar gives back of a write: parsing the sidecar
/// text of an index yields the same index, provided no path holds a newline
/// or ends with a carriage return, and no hash holds a space or a newline.
pub proof fn lemma_hashes_roundtrip(m: Map<Seq<char>, Seq<char>>, t: Seq<char>)
    requires
        is_hashes_text(m, t),
        forall|k: Seq<char>, j: int| m.contains_key(k) && 0 <= j < k.len() ==> k[j] != '\n',
        forall|k: Seq<char>| m.contains_key(k) && k.len() > 0 ==> k.last() != '\r',
        forall|k: Seq<char>, j: int|
            m.contains_key(k) && 0 <= j < m[k].len() ==> m[k][j] != ' ' && m[k][j] != '\n',
    ensures
        hashes_of_lines(lines(t)) == m,
{
    let ks = choose|ks: Seq<Seq<char>>|
        {
            &&& ks.no_duplicates()
            &&& ks.to_set() == m.dom()
            &&& lines_sorted(lines_in_order(m, ks))
            &&& t == join(lines_in_order(m, ks), seq!['\n'])
        };
    let ls = lines_in_order(m, ks);
    assert forall|i: int| 0 <= i < ks.len() implies m.contains_key(ks[i]) by {
        assert(ks.to_set().contains(ks[i]));
    }
    assert forall|i: int, j: int| 0 <= i < ls.len() && 0 <= j < ls[i].len() implies ls[i][j]
        != '\n' by {
        let k = ks[i];
        let h = m[k];
        if j < h.len() {
            assert(ls[i][j] == h[j]);
        } else if j > h.len() {
            assert(ls[i][j] == k[j - h.len() - 1]);
        }
    }
    assert forall|i: int| 0 <= i < ls.len() && ls[i].len() > 0 implies ls[i].last() != '\r' by {
        let k = ks[i];
        if k.len() > 0 {
            assert(ls[i].last() == k.last());
        }
    }
    lemma_lines_join(ls);
    lemma_fold_lines(m, ks);
    assert(Map::new(|k: Seq<char>| ks.contains(k), |k: Seq<char>| m[k]) =~= m) by {
        assert forall|k: Seq<char>| ks.contains(k) <==> m.contains_key(k) by {
            assert(ks.to_set().contains(k) == ks.contains(k));
        }
    }
}

// ---------------------------------------------------------------------------
// Diffing
// ---------------------------------------------------------------------------

/// The views of a sequence of strings.
pub open spec fn string_views(v: Seq<String>) -> Seq<Seq<char>> {
    v.map_values(|s: String| s@)
}

/// Paths that are new in `current` or whose hash changed.
pub open spec fn added_paths(
    current: Map<Seq<char>, Seq<char>>,
    stored: Map<Seq<char>, Seq<char>>,
) -> Set<Seq<char>> {
    Set::new(
        |p: Seq<char>|
            current.contains_key(p) && !(stored.contains_key(p) && stored[p] == current[p]),
    )
}

/// Paths recorded in `stored` that are gone from `current`.
pub open spec fn removed_paths(
    current: Map<Seq<char>, Seq<char>>,
    stored: Map<Seq<char>, Seq<char>>,
) -> Set<Seq<char>> {
    Set::new(|p: Seq<char>| stored.contains_key(p) && !current.contains_key(p))
}

/// `s` contains `x`.
pub open spec fn seq_has(s: Seq<Seq<char>>, x: Seq<char>) -> bool {
    s.contains(x)
}

/// Some entry before position `n` has key `x`.
pub open spec fn key_in_prefix(ps: Seq<(Seq<char>, Seq<char>)>, n: int, x: Seq<char>) -> bool {
    exists|j: int| 0 <= j < n && ps[j].0 == x
}

/// Diff result from comparing filesystem hashes against stored sidecar hashes.
pub struct SyncDiff {
    /// Files present on disk but not in the sidecar (or with a different hash).
    pub to_add: Vec<String>,
    /// Files in the sidecar but missing from disk.
    pub to_remove: Vec<String>,
    /// True when the sidecar was empty and everything is new.
    pub is_fresh: bool,
}

/// Compares current filesystem hashes against the stored sidecar to
/// determine which documents need to be added to or removed from the store.
/// Each path is listed once; the order of the lists is not specified.
pub fn compute_diff(current: &HashIndex, stored: &HashIndex) -> (r: SyncDiff)
    ensures
        string_views(r.to_add@).no_duplicates(),
        string_views(r.to_add@).to_set() == added_paths(current@, stored@),
        string_views(r.to_remove@).no_duplicates(),
        string_views(r.to_remove@).to_set() == removed_paths(current@, stored@),
        r.is_fresh == (stored@ == Map::<Seq<char>, Seq<char>>::empty()),
{
    proof {
        use_type_invariant(current);
        use_type_invariant(stored);
        lemma_map_of(current.pairs());
        lemma_map_of(stored.pairs());
    }
    let ghost cps = current.pairs();
    let ghost sps = stored.pairs();
    let ghost added = added_paths(current@, stored@);
    let ghost removed = removed_paths(current@, stored@);
    let mut to_add: Vec<String> = Vec::new();
    let mut i: usize = 0;
    while i < current.entries.len()
        invariant
            i <= cps.len(),
            cps == current.pairs(),
            keys_distinct(cps),
            added == added_paths(current@, stored@),
            forall|j: int| 0 <= j < cps.len() ==> current@[cps[j].0] == cps[j].1,
            forall|j: int| 0 <= j < cps.len() ==> current@.contains_key(cps[j].0),
            string_views(to_add@).no_duplicates(),
            forall|x: Seq<char>|
                #![trigger seq_has(string_views(to_add@), x)]
                #![trigger key_in_prefix(cps, i as int, x)]
                seq_has(string_views(to_add@), x) <==> key_in_prefix(cps, i as int, x) && added.contains(x),
        decreases cps.len() - i,
    {
        let path = &current.entries[i].0;
        let hash = &current.entries[i].1;
        assert(cps[i as int] == (path@, hash@));
        assert(current@.contains_key(path@));
        let unchanged = match stored.get(path.as_str()) {
            Some(sh) => *sh == *hash,
            None => false,
        };
        assert(current@[path@] == hash@);
        assert(unchanged == !added.contains(path@));
        let ghost prev = string_views(to_add@);
        proof {
            if prev.contains(path@) {
                assert(seq_has(string_views(to_add@), path@));
                let j = choose|j: int| 0 <= j < i && cps[j].0 == path@;
                assert(cps[j].0 != cps[i as int].0);
            }
        }
        if !unchanged {
            to_add.push(path.clone());
            proof {
                assert(string_views(to_add@) =~= prev.push(path@));
            }
        }
        proof {
            assert(!prev.contains(path@));
            assert forall|x: Seq<char>|
                #![trigger seq_has(string_views(to_add@), x)]
                #![trigger key_in_prefix(cps, i + 1, x)]
                seq_has(string_views(to_add@), x) <==> key_in_prefix(cps, i + 1, x) && added.contains(x) by {
                let now = string_views(to_add@);
                if x == path@ {
                    assert(cps[i as int].0 == x);
                    if !unchanged {
                        assert(now[prev.len() as int] == x);
                    } else {
                        assert(now == prev);
                    }
                } else {
                    assert(seq_has(prev, x) <==> key_in_prefix(cps, i as int, x)
                        && added.contains(x));
                    assert(key_in_prefix(cps, i + 1, x) <==> key_in_prefix(cps, i as int, x)) by {
                        if exists|j: int| 0 <= j < i + 1 && cps[j].0 == x {
                            let j = choose|j: int| 0 <= j < i + 1 && cps[j].0 == x;
                            assert(j != i);
                        }
                    }
                    if !unchanged {
                        assert(now =~= prev.push(path@));
                        if now.contains(x) {
                            let a = choose|a: int| 0 <= a < now.len() && now[a] == x;
                            assert(prev[a] == x);
                        }
                        if prev.contains(x) {
                            let a = choose|a: int| 0 <= a < prev.len() && prev[a] == x;
                            assert(now[a] == x);
                        }
                    } else {
                        assert(now == prev);
                    }
                }
            }
        }
        i = i + 1;
    }
    assert(string_views(to_add@).to_set() =~= added) by {
        assert forall|x: Seq<char>| added.contains(x) <==> string_views(to_add@).contains(x) by {
            if added.contains(x) {
                let j = choose|j: int| 0 <= j < cps.len() && cps[j].0 == x;
                assert(key_in_prefix(cps, i as int, x));
            }
            assert(seq_has(string_views(to_add@), x) == string_views(to_add@).contains(x));
        }
    }
    let mut to_remove: Vec<String> = Vec::new();
    let mut i: usize = 0;
    while i < stored.entries.len()
        invariant
            i <= sps.len(),
            sps == stored.pairs(),
            keys_distinct(sps),
            removed == removed_paths(current@, stored@),
            forall|k: Seq<char>| #![auto] stored@.contains_key(k) <==> exists|j: int| 0 <= j < sps.len() && sps[j].0 == k,
            string_views(to_remove@).no_duplicates(),
            forall|x: Seq<char>|
                #![trigger seq_has(string_views(to_remove@), x)]
                #![trigger key_in_prefix(sps, i as int, x)]
                seq_has(string_views(to_remove@), x) <==> key_in_prefix(sps, i as int, x) && removed.contains(x),
        decreases sps.len() - i,
    {
        let path = &stored.entries[i].0;
        assert(sps[i as int].0 == path@);
        assert(stored@.contains_key(path@));
        let keep = current.contains_key(path.as_str());
        assert(keep == !removed.contains(path@));
        let ghost prev = string_views(to_remove@);
        proof {
            if prev.contains(path@) {
                assert(seq_has(string_views(to_remove@), path@));
                let j = choose|j: int| 0 <= j < i && sps[j].0 == path@;
                assert(sps[j].0 != sps[i as int].0);
            }
        }
        if !keep {
            to_remove.push(path.clone());
            proof {
                assert(string_views(to_remove@) =~= prev.push(path@));
            }
        }
        proof {
            assert(!prev.contains(path@));
            assert forall|x: Seq<char>|
                #![trigger seq_has(string_views(to_remove@), x)]
                #![trigger key_in_prefix(sps, i + 1, x)]
                seq_has(string_views(to_remove@), x) <==> key_in_prefix(sps, i + 1, x) && removed.contains(x) by {
                let now = string_views(to_remove@);
                if x == path@ {
                    assert(sps[i as int].0 == x);
                    if !keep {
                        assert(now[prev.len() as int] == x);
                    } else {
                        assert(now == prev);
                    }
                } else {
                    assert(seq_has(prev, x) <==> key_in_prefix(sps, i as int, x)
                        && removed.contains(x));
                    assert(key_in_prefix(sps, i + 1, x) <==> key_in_prefix(sps, i as int, x)) by {
                        if exists|j: int| 0 <= j < i + 1 && sps[j].0 == x {
                            let j = choose|j: int| 0 <= j < i + 1 && sps[j].0 == x;
                            assert(j != i);
                        }
                    }
                    if !keep {
                        assert(now =~= prev.push(path@));
                        if now.contains(x) {
                            let a = choose|a: int| 0 <= a < now.len() && now[a] == x;
                            assert(prev[a] == x);
                        }
                        if prev.contains(x) {
                            let a = choose|a: int| 0 <= a < prev.len() && prev[a] == x;
                            assert(now[a] == x);
                        }
                    } else {
                        assert(now == prev);
                    }
                }
            }
        }
        i = i + 1;
    }
    assert(string_views(to_remove@).to_set() =~= removed) by {
        assert forall|x: Seq<char>| removed.contains(x) <==> string_views(to_remove@).contains(x) by {
            if removed.contains(x) {
                let j = choose|j: int| 0 <= j < sps.len() && sps[j].0 == x;
                assert(key_in_prefix(sps, i as int, x));
            }
            assert(seq_has(string_views(to_remove@), x) == string_views(to_remove@).contains(x));
        }
    }
    let is_fresh = stored.is_empty();
    SyncDiff { to_add, to_remove, is_fresh }
}

/// A sync against an unchanged sidecar has nothing to do: comparing an
/// index with itself finds no path to add and none to remove.
pub proof fn lemma_unchanged_needs_no_sync(m: Map<Seq<char>, Seq<char>>)
    ensures
        added_paths(m, m) == Set::<Seq<char>>::empty(),
        removed_paths(m, m) == Set::<Seq<char>>::empty(),
{
    assert(added_paths(m, m) =~= Set::<Seq<char>>::empty());
    assert(removed_paths(m, m) =~= Set::<Seq<char>>::empty());
}

/// The change counts of repeated syncs (which `plan_sync` counts as the
/// paths to add plus the paths to remove): against an empty sidecar (a first
/// sync, or one after the store was cleared) every current path is a change;
/// against a sidecar equal to the current hashes (an immediate second sync)
/// none is.
pub proof fn lemma_sync_change_counts(
    current: Map<Seq<char>, Seq<char>>,
    to_add: Seq<Seq<char>>,
    to_remove: Seq<Seq<char>>,
)
    requires
        to_add.no_duplicates(),
        to_remove.no_duplicates(),
    ensures
        to_add.to_set() == added_paths(current, Map::empty()) && to_remove.to_set() == removed_paths(
            current,
            Map::empty(),
        ) ==> to_add.len() + to_remove.len() == current.len(),
        to_add.to_set() == added_paths(current, current) && to_remove.to_set() == removed_paths(
            current,
            current,
        ) ==> to_add.len() + to_remove.len() == 0,
{
    to_add.unique_seq_to_set();
    to_remove.unique_seq_to_set();
    assert(added_paths(current, Map::empty()) =~= current.dom());
    assert(removed_paths(current, Map::empty()) =~= Set::<Seq<char>>::empty());
    lemma_unchanged_needs_no_sync(current);
}

/// A diff accounts for every path: the sidecar's paths without those to
/// remove, together with those to add, are exactly the current paths.
pub proof fn lemma_diff_reaches_current(current: Map<Seq<char>, Seq<char>>, stored: Map<Seq<char>, Seq<char>>)
    ensures
        stored.dom().difference(removed_paths(current, stored)).union(added_paths(current, stored))
            == current.dom(),
{
    assert(stored.dom().difference(removed_paths(current, stored)).union(added_paths(current, stored))
        =~= current.dom());
}

} // verus!
