//! Configuration records and their resolution.
//!
//! The raw configuration (as written in `collections.ron`) keeps collection
//! paths relative to the configuration file; resolution joins them onto the
//! configuration directory and fills in the cache directory.

use vstd::prelude::*;
use crate::query::opt_view;
use crate::store::{path_join, path_join_exec};
use crate::text::{chars_of, has_prefix, push_chars, slice_chars, starts_with, string_of};

verus! {

/// Raw configuration as written in `collections.ron`.
#[derive(Debug, Clone)]
pub struct Config {
    pub cache_dir: Option<String>,
    pub collections: Vec<CollectionDef>,
}

/// A collection definition from the configuration, with its path still relative.
#[derive(Debug, Clone)]
pub struct CollectionDef {
    pub name: String,
    pub path: String,
    pub description: String,
    pub writable: bool,
    pub sections: Vec<SectionDef>,
}

/// Maps a directory prefix to a human-readable description.
#[derive(Debug, Clone)]
pub struct SectionDef {
    pub prefix: String,
    pub description: String,
}

/// Resolved configuration with joined paths.
#[derive(Debug, Clone)]
pub struct ResolvedConfig {
    pub cache_dir: String,
    pub collections: Vec<ResolvedCollection>,
}

/// A collection whose path has been joined onto the configuration directory.
#[derive(Debug, Clone)]
pub struct ResolvedCollection {
    pub name: String,
    pub path: String,
    pub description: String,
    pub writable: bool,
    pub sections: Vec<SectionDef>,
}

/// `~/`
pub open spec fn tilde_slash() -> Seq<char> {
    seq!['~', '/']
}

/// `~/...` expanded against the home directory, when there is one: the home
/// directory followed by the rest after `~`. Anything else is kept.
pub open spec fn expand_home_spec(s: Seq<char>, home: Option<Seq<char>>) -> Seq<char> {
    if has_prefix(s, tilde_slash()) && home is Some {
        home.unwrap() + s.skip(1)
    } else {
        s
    }
}

/// `kb-mcp`
pub open spec fn app_dir_name() -> Seq<char> {
    seq!['k', 'b', '-', 'm', 'c', 'p']
}

/// `/tmp`
pub open spec fn tmp_dir() -> Seq<char> {
    seq!['/', 't', 'm', 'p']
}

/// The default cache directory: `kb-mcp` under the user's cache directory,
/// or under `/tmp` when there is none.
pub open spec fn default_cache_spec(cache_base: Option<Seq<char>>) -> Seq<char> {
    match cache_base {
        Some(b) => path_join(b, app_dir_name()),
        None => path_join(tmp_dir(), app_dir_name()),
    }
}

/// The resolved form of a collection definition: its path joined onto the
/// configuration directory and then replaced by its canonical form, when
/// `canonical` gives one for the joined path; everything else as written.
pub open spec fn resolved_from<F: Fn(&str) -> Option<String>>(
    r: ResolvedCollection,
    c: CollectionDef,
    config_dir: Seq<char>,
    canonical: F,
) -> bool {
    &&& r.name == c.name
    &&& exists|s: &str, a: Option<String>|
        #![trigger call_ensures(canonical, (s,), a)]
        s@ == path_join(config_dir, c.path@) && call_ensures(canonical, (s,), a) && r.path@ == match a {
            Some(x) => x@,
            None => s@,
        }
    &&& r.description == c.description
    &&& r.writable == c.writable
    &&& r.sections == c.sections
}

/// Minimal `~` expansion: only a `~/` prefix, against `home`.
pub fn expand_home(s: &str, home: Option<&str>) -> (r: String)
    ensures
        r@ == expand_home_spec(s@, opt_view(home)),
{
    let cs = chars_of(s);
    let mut t: Vec<char> = Vec::new();
    t.push('~');
    t.push('/');
    assert(t@ =~= tilde_slash());
    if starts_with(cs.as_slice(), t.as_slice()) {
        if let Some(h) = home {
            let mut r = string_of(chars_of(h).as_slice());
            let rest = slice_chars(cs.as_slice(), 1, cs.len());
            assert(rest@ =~= s@.skip(1));
            push_chars(&mut r, rest.as_slice());
            return r;
        }
    }
    string_of(cs.as_slice())
}

/// The user's home directory (`dirs::home_dir`), as displayed text.
/// Nothing is claimed of the result: it depends on the environment.
#[verifier::external_body]
fn home_dir() -> (r: Option<String>) {
    dirs::home_dir().map(|p| p.display().to_string())
}

/// The user's cache directory (`dirs::cache_dir`), as displayed text.
/// Nothing is claimed of the result: it depends on the environment.
#[verifier::external_body]
fn cache_dir() -> (r: Option<String>) {
    dirs::cache_dir().map(|p| p.display().to_string())
}

/// Expands a leading `~/` against the user's home directory, when there is
/// one; anything else is kept as it is.
pub fn shellexpand(s: &str) -> (r: String)
    ensures
        exists|h: Option<Seq<char>>| #[trigger] expand_home_spec(s@, h) == r@,
{
    let home = home_dir();
    let r = match &home {
        Some(h) => expand_home(s, Some(h.as_str())),
        None => expand_home(s, None),
    };
    let ghost hv: Option<Seq<char>> = match home {
        Some(h) => Some(h@),
        None => None,
    };
    assert(expand_home_spec(s@, hv) == r@);
    r
}

/// The default cache directory for a given user cache directory.
pub fn default_cache_dir_in(cache_base: Option<&str>) -> (r: String)
    ensures
        r@ == default_cache_spec(opt_view(cache_base)),
{
    let name = chars_of("kb-mcp");
    proof {
        reveal_strlit("kb-mcp");
    }
    assert(name@ =~= app_dir_name());
    let n = string_of(name.as_slice());
    match cache_base {
        Some(b) => path_join_exec(b, n.as_str()),
        None => {
            let t = chars_of("/tmp");
            proof {
                reveal_strlit("/tmp");
            }
            assert(t@ =~= tmp_dir());
            let ts = string_of(t.as_slice());
            path_join_exec(ts.as_str(), n.as_str())
        },
    }
}

/// `kb-mcp` under the user's cache directory, or under `/tmp`.
pub fn default_cache_dir() -> (r: String)
    ensures
        exists|b: Option<Seq<char>>| #[trigger] default_cache_spec(b) == r@,
{
    let base = cache_dir();
    let r = match &base {
        Some(b) => default_cache_dir_in(Some(b.as_str())),
        None => default_cache_dir_in(None),
    };
    let ghost bv: Option<Seq<char>> = match base {
        Some(b) => Some(b@),
        None => None,
    };
    assert(default_cache_spec(bv) == r@);
    r
}

impl Config {
    /// Resolves the configuration against the directory of the configuration
    /// file, given the user's home and cache directories: the cache directory
    /// is expanded (or defaults to `kb-mcp` under the cache directory), and
    /// each collection path is joined onto `config_dir` and replaced by the
    /// canonical form that `canonical` gives for it, if any.
    pub fn resolve_in<F: Fn(&str) -> Option<String>>(
        self,
        config_dir: &str,
        home: Option<&str>,
        cache_base: Option<&str>,
        canonical: F,
    ) -> (r: ResolvedConfig)
        requires
            forall|s: &str| #[trigger] canonical.requires((s,)),
        ensures
            r.cache_dir@ == match self.cache_dir {
                Some(s) => expand_home_spec(s@, opt_view(home)),
                None => default_cache_spec(opt_view(cache_base)),
            },
            r.collections@.len() == self.collections@.len(),
            forall|i: int|
                0 <= i < r.collections@.len() ==> resolved_from(
                    #[trigger] r.collections@[i],
                    self.collections@[i],
                    config_dir@,
                    canonical,
                ),
    {
        let cache_dir = match &self.cache_dir {
            Some(s) => expand_home(s.as_str(), home),
            None => default_cache_dir_in(cache_base),
        };
        let collections = resolve_collections(self.collections, config_dir, canonical);
        ResolvedConfig { cache_dir, collections }
    }

    /// Resolves relative paths against the configuration file's directory
    /// (each then replaced by the canonical form that `canonical` gives for
    /// it, if any), expanding `~/` against the user's home directory and
    /// defaulting the cache directory to `kb-mcp` under the user's cache
    /// directory. Which home and cache directories the environment gives is
    /// not known here.
    pub fn resolve<F: Fn(&str) -> Option<String>>(self, config_dir: &str, canonical: F) -> (r: ResolvedConfig)
        requires
            forall|s: &str| #[trigger] canonical.requires((s,)),
        ensures
            match self.cache_dir {
                Some(s) => exists|h: Option<Seq<char>>| #[trigger] expand_home_spec(s@, h) == r.cache_dir@,
                None => exists|b: Option<Seq<char>>| #[trigger] default_cache_spec(b) == r.cache_dir@,
            },
            r.collections@.len() == self.collections@.len(),
            forall|i: int|
                0 <= i < r.collections@.len() ==> resolved_from(
                    #[trigger] r.collections@[i],
                    self.collections@[i],
                    config_dir@,
                    canonical,
                ),
    {
        let cache_dir = match &self.cache_dir {
            Some(s) => shellexpand(s.as_str()),
            None => default_cache_dir(),
        };
        let collections = resolve_collections(self.collections, config_dir, canonical);
        ResolvedConfig { cache_dir, collections }
    }
}

fn resolve_collections<F: Fn(&str) -> Option<String>>(defs: Vec<CollectionDef>, config_dir: &str, canonical: F) -> (r: Vec<ResolvedCollection>)
    requires
        forall|s: &str| #[trigger] canonical.requires((s,)),
    ensures
        r@.len() == defs@.len(),
        forall|i: int| 0 <= i < r@.len() ==> resolved_from(#[trigger] r@[i], defs@[i], config_dir@, canonical),
{
    let ghost all = defs@;
    let mut rest = defs;
    let mut out: Vec<ResolvedCollection> = Vec::new();
    let n = rest.len();
    let mut i: usize = 0;
    while i < n
        invariant
            n == all.len(),
            i <= n,
            rest@ == all.skip(i as int),
            out@.len() == i,
            forall|s: &str| #[trigger] canonical.requires((s,)),
            forall|k: int| 0 <= k < i ==> resolved_from(#[trigger] out@[k], all[k], config_dir@, canonical),
        decreases n - i,
    {
        assert(rest@.len() == n - i);
        let c = rest.remove(0);
        assert(c == all[i as int]);
        assert(rest@ =~= all.skip(i + 1));
        let joined = path_join_exec(config_dir, c.path.as_str());
        let js: &str = joined.as_str();
        let answer = canonical(js);
        let ghost ans = answer;
        let path = match answer {
            Some(x) => x,
            None => string_of(chars_of(js).as_slice()),
        };
        assert(js@ == path_join(config_dir@, c.path@) && call_ensures(canonical, (js,), ans) && path@ == match ans {
            Some(x) => x@,
            None => js@,
        });
        out.push(
            ResolvedCollection {
                name: c.name,
                path,
                description: c.description,
                writable: c.writable,
                sections: c.sections,
            },
        );
        i = i + 1;
    }
    out
}

} // verus!
