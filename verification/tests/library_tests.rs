use kb_mcp::config::{CollectionDef, Config, ResolvedCollection, SectionDef};
use kb_mcp::digest::format_digest;
use kb_mcp::export::format_export;
use kb_mcp::format::{extract_summary, format_context, format_document, format_query, format_sections, format_write, yaml_value_to_string};
use kb_mcp::health::{format_health, health_report};
use kb_mcp::index::{build_sections, parse_document, Index, SourceFile};
use kb_mcp::query::matches_query;
use kb_mcp::search::{fetch_limit, is_blank_query, position_of, rank_hits, SearchHit};
use kb_mcp::types::{Document, FmValue, FrontmatterEntry, ROOT_SECTION};
use kb_mcp::write::{find_available_path, slugify_title};

fn languages() -> ResolvedCollection {
    ResolvedCollection {
        name: "languages".to_string(),
        path: "/vault/languages".to_string(),
        description: "Language docs".to_string(),
        writable: false,
        sections: vec![SectionDef { prefix: "golang".to_string(), description: "Go docs".to_string() }],
    }
}

fn fixture_files() -> Vec<SourceFile> {
    vec![
        SourceFile {
            collection: "languages".to_string(),
            rel_path: "golang/web-frameworks.md".to_string(),
            content: "# Go Web Frameworks\n\nGin and Echo are common Go web frameworks.\n".to_string(),
        },
        SourceFile {
            collection: "languages".to_string(),
            rel_path: "rust.md".to_string(),
            content: "# Rust Best Practices\n\nOwnership and borrowing prevent data races.\n".to_string(),
        },
    ]
}

fn fm(key: &str, value: FmValue) -> FrontmatterEntry {
    FrontmatterEntry { key: key.to_string(), value }
}

fn doc(path: &str, title: &str, section: &str, collection: &str, body: &str, tags: &[&str], frontmatter: Vec<FrontmatterEntry>) -> Document {
    Document {
        path: path.to_string(),
        title: title.to_string(),
        tags: tags.iter().map(|t| t.to_string()).collect(),
        body: body.to_string(),
        section: section.to_string(),
        collection: collection.to_string(),
        frontmatter,
    }
}

#[test]
fn loose_root_file_gets_root_section() {
    let index = Index::build(&vec![languages()], &fixture_files());
    let rust = index.find_by_path("rust.md").expect("rust.md indexed");
    assert_eq!(rust.section, ROOT_SECTION);
    let go = index.find_by_path("golang/web-frameworks.md").expect("golang doc indexed");
    assert_eq!(go.section, "golang");
}

#[test]
fn loose_root_file_appears_in_section_listing() {
    let index = Index::build(&vec![languages()], &fixture_files());
    let root_section = index
        .sections
        .iter()
        .find(|s| s.name == ROOT_SECTION && s.collection == "languages")
        .expect("root section listed");
    assert_eq!(root_section.doc_count, 1);
    let counted: usize = index.sections.iter().map(|s| s.doc_count).sum();
    assert_eq!(counted, index.documents.len());
}

#[test]
fn loose_root_file_appears_in_digest() {
    let index = Index::build(&vec![languages()], &fixture_files());
    let digest = format_digest(&index.documents, &index.sections, None, 739000);
    let coll = &digest.collections[0];
    assert!(coll.sections.iter().any(|s| s.name == ROOT_SECTION));
    assert!(coll.sections.iter().any(|s| s.topics.contains(&"Rust Best Practices".to_string())));
}

#[test]
fn loose_root_file_is_searchable_and_scopable() {
    let index = Index::build(&vec![languages()], &fixture_files());
    let hits = vec![
        SearchHit { uri: "languages://rust.md".to_string(), score_key: 5, snippet: "ownership".to_string() },
        SearchHit { uri: "languages://golang/web-frameworks.md".to_string(), score_key: 3, snippet: String::new() },
    ];
    let all = rank_hits(&index.documents, &hits, None, 10);
    assert!(all.iter().any(|r| index.documents[r.doc_index].path == "rust.md"));
    let root = rank_hits(&index.documents, &hits, Some(ROOT_SECTION), 10);
    assert_eq!(root.len(), 1);
    assert_eq!(index.documents[root[0].doc_index].path, "rust.md");
    let go = rank_hits(&index.documents, &hits, Some("golang"), 10);
    assert!(go.iter().all(|r| index.documents[r.doc_index].path != "rust.md"));
    // An empty snippet falls back to the document's summary.
    assert_eq!(go[0].excerpt, "Gin and Echo are common Go web frameworks.");
}

#[test]
fn sections_are_sorted_and_described() {
    let docs = vec![
        doc("z/a.md", "A", "z", "b", "", &[], vec![]),
        doc("golang/x.md", "X", "golang", "languages", "", &[], vec![]),
        doc("golang/y.md", "Y", "golang", "languages", "", &[], vec![]),
        doc("c.md", "C", ROOT_SECTION, "languages", "", &[], vec![]),
    ];
    let secs = build_sections(&docs, &vec![languages()]);
    let names: Vec<(String, String, usize)> = secs.iter().map(|s| (s.collection.clone(), s.name.clone(), s.doc_count)).collect();
    assert_eq!(
        names,
        vec![
            ("b".to_string(), "z".to_string(), 1),
            ("languages".to_string(), ROOT_SECTION.to_string(), 1),
            ("languages".to_string(), "golang".to_string(), 2),
        ]
    );
    assert_eq!(secs[2].description, "Go docs");
    assert_eq!(secs[0].description, "");
    let listed = format_sections(&secs);
    assert_eq!(listed.len(), 3);
    assert_eq!(listed[2].doc_count, 2);
}

#[test]
fn parse_document_reads_frontmatter_title_and_section() {
    let d = parse_document(
        "concepts/memory.md",
        "---\ntags: [ai, memory]\nstatus: draft\ncreated: 2024-01-02\n---\n\n# Cognitive Memory\n\nBody text.\n",
        "vault",
    );
    assert_eq!(d.title, "Cognitive Memory");
    assert_eq!(d.section, "concepts");
    assert_eq!(d.collection, "vault");
    assert_eq!(d.tags, vec!["ai".to_string(), "memory".to_string()]);
    assert_eq!(d.body, "# Cognitive Memory\n\nBody text.\n");
    let keys: Vec<&str> = d.frontmatter.iter().map(|e| e.key.as_str()).collect();
    assert_eq!(keys, vec!["created", "status", "tags"]);
    let status = d.frontmatter.iter().find(|e| e.key == "status").unwrap();
    assert!(matches!(&status.value, FmValue::Str(s) if s == "draft"));
}

#[test]
fn title_falls_back_to_file_stem() {
    let d = parse_document("notes/plain.md", "no heading here\n", "vault");
    assert_eq!(d.title, "plain");
    assert!(d.frontmatter.is_empty());
    let d = parse_document("notes/.hidden", "x", "vault");
    assert_eq!(d.title, ".hidden");
    let d = parse_document("a.md", "## Sub\n# # Double\n", "vault");
    assert_eq!(d.title, "Double");
}

#[test]
fn malformed_frontmatter_is_ignored() {
    let d = parse_document("a.md", "---\n: : [\n---\nbody\n", "v");
    assert!(d.frontmatter.is_empty());
    assert!(d.tags.is_empty());
    assert_eq!(d.body, "body\n");
    let d = parse_document("a.md", "---\nunterminated\n", "v");
    assert_eq!(d.body, "---\nunterminated\n");
}

#[test]
fn index_finds_by_path_then_title() {
    let index = Index::build(&vec![languages()], &fixture_files());
    assert_eq!(index.lookup("rust.md").unwrap().title, "Rust Best Practices");
    assert_eq!(index.lookup("rust best practices").unwrap().path, "rust.md");
    assert!(index.lookup("missing").is_none());
    let h = index.hashes_for("languages").unwrap();
    assert_eq!(h.len(), 2);
    assert_eq!(h.get("rust.md").unwrap().len(), 64);
    assert!(index.hashes_for("other").is_none());
}

#[test]
fn summary_after_heading_or_first_paragraph() {
    assert_eq!(extract_summary("# Title\n\nFirst line\nsecond line\n\nNext para"), "First line\nsecond line");
    assert_eq!(extract_summary("\n\nNo heading\nhere\n\nmore"), "No heading\nhere");
    assert_eq!(extract_summary("# Only heading"), "");
    assert_eq!(extract_summary(""), "");
}

#[test]
fn yaml_values_display() {
    assert_eq!(yaml_value_to_string(&FmValue::Str("x".to_string())), "x");
    assert_eq!(yaml_value_to_string(&FmValue::Bool(true)), "true");
    assert_eq!(yaml_value_to_string(&FmValue::Int(-42)), "-42");
    assert_eq!(yaml_value_to_string(&FmValue::Null), "null");
    assert_eq!(
        yaml_value_to_string(&FmValue::Other { display: "1.5".to_string(), json: "1.5".to_string() }),
        "1.5"
    );
}

#[test]
fn document_and_context_records() {
    let d = doc("a/b.md", "B", "a", "v", "# B\n\nSummary here.\n\nRest.", &["t"], vec![fm("status", FmValue::Str("done".to_string()))]);
    let full = format_document(&d, true);
    assert_eq!(full.content.as_deref(), Some("# B\n\nSummary here.\n\nRest."));
    assert!(format_document(&d, false).content.is_none());
    let ctx = format_context(&d);
    assert_eq!(ctx.summary, "Summary here.");
    assert_eq!(ctx.frontmatter.len(), 1);
    let w = format_write("x.md", "v", "T", &vec!["a".to_string()]);
    assert_eq!((w.path.as_str(), w.collection.as_str(), w.title.as_str()), ("x.md", "v", "T"));
    let q = format_query(&vec![&d]);
    assert_eq!(q.total, 1);
    assert_eq!(q.documents[0].tags, vec!["t".to_string()]);
}

#[test]
fn query_filters_combine() {
    let d = doc(
        "a.md",
        "A",
        "x",
        "vault",
        "",
        &["Rust"],
        vec![
            fm("created", FmValue::Str("2024-03-01".to_string())),
            fm("sources", FmValue::Null),
            fm("status", FmValue::Str("draft".to_string())),
        ],
    );
    assert!(matches_query(&d, Some("vault"), Some("rust"), Some("draft"), Some("2024-03-01"), true));
    assert!(!matches_query(&d, Some("other"), None, None, None, false));
    assert!(!matches_query(&d, None, Some("go"), None, None, false));
    assert!(!matches_query(&d, None, None, Some("done"), None, false));
    assert!(!matches_query(&d, None, None, None, Some("2024-03-02"), false));
    // A date that does not parse filters nothing.
    assert!(matches_query(&d, None, None, None, Some("March"), false));
    let bare = doc("b.md", "B", "x", "vault", "", &[], vec![]);
    assert!(!matches_query(&bare, None, None, None, None, true));
    assert!(!matches_query(&bare, None, None, None, Some("2024-01-01"), false));
}

#[test]
fn ranking_keeps_best_hit_per_uri() {
    let docs = vec![
        doc("a.md", "A", "s", "c", "# A\n\nAlpha.", &[], vec![]),
        doc("b.md", "B", "s", "c", "# B\n\nBeta.", &[], vec![]),
        doc("c.md", "C", "t", "c", "", &[], vec![]),
    ];
    let hits = vec![
        SearchHit { uri: "c://a.md".to_string(), score_key: 1, snippet: "low".to_string() },
        SearchHit { uri: "c://b.md".to_string(), score_key: 7, snippet: "b".to_string() },
        SearchHit { uri: "c://a.md".to_string(), score_key: 9, snippet: "high".to_string() },
        SearchHit { uri: "c://missing.md".to_string(), score_key: 20, snippet: "x".to_string() },
        SearchHit { uri: "not a uri".to_string(), score_key: 30, snippet: "x".to_string() },
        SearchHit { uri: "c://c.md".to_string(), score_key: 7, snippet: String::new() },
    ];
    let r = rank_hits(&docs, &hits, None, 10);
    let got: Vec<(usize, usize, String)> = r.iter().map(|h| (h.hit, h.doc_index, h.excerpt.clone())).collect();
    assert_eq!(
        got,
        vec![(2, 0, "high".to_string()), (1, 1, "b".to_string()), (5, 2, String::new())]
    );
    let top = rank_hits(&docs, &hits, None, 1);
    assert_eq!(top.len(), 1);
    assert_eq!(top[0].doc_index, 0);
    // No result is given when none are asked for.
    assert!(rank_hits(&docs, &hits, None, 0).is_empty());
    assert_eq!(rank_hits(&docs, &hits, Some("t"), 10).len(), 1);
    assert!(rank_hits(&docs, &Vec::new(), None, 10).is_empty());
}

#[test]
fn search_helpers() {
    assert!(is_blank_query("  \t\n"));
    assert!(is_blank_query(""));
    assert!(!is_blank_query(" a "));
    assert_eq!(fetch_limit(10), 30);
    let docs = vec![doc("a.md", "A", "s", "c", "", &[], vec![]), doc("a.md", "A2", "s", "d", "", &[], vec![])];
    assert_eq!(position_of(&docs, "c", "a.md"), Some(0));
    assert_eq!(position_of(&docs, "d", "a.md"), Some(1));
    assert_eq!(position_of(&docs, "e", "a.md"), None);
    assert_eq!(position_of(&docs, "c", "b.md"), None);
}

#[test]
fn slugs_and_available_paths() {
    assert_eq!(slugify_title("Hello, World! 2024"), "hello-world-2024");
    assert_eq!(slugify_title("  --Already--Slugged--  "), "already-slugged");
    assert_eq!(slugify_title("Ünïcode Tïtle"), "n-code-t-tle");
    assert_eq!(slugify_title("!!!"), "");
    let once = slugify_title("  Mixed CASE -- Title 42!");
    assert_eq!(once, "mixed-case-title-42");
    assert_eq!(slugify_title(&once), once);
    let taken = ["/n/a.md".to_string(), "/n/a-2.md".to_string()];
    assert_eq!(
        find_available_path("/n", "a.md", |p: &str| taken.iter().any(|t| t == p)),
        Some("/n/a-3.md".to_string())
    );
    assert_eq!(
        find_available_path("/n", "b.md", |p: &str| taken.iter().any(|t| t == p)),
        Some("/n/b.md".to_string())
    );
    assert_eq!(find_available_path("/n/", "x.md", |_p: &str| true), None);
    assert_eq!(
        find_available_path("/n/", "x.md", |p: &str| p != "/n/x-99.md"),
        Some("/n/x-99.md".to_string())
    );
}

#[test]
fn config_resolves_relative_to_its_directory() {
    let config = Config {
        cache_dir: Some("~/cache/kb".to_string()),
        collections: vec![
            CollectionDef {
                name: "docs".to_string(),
                path: "docs".to_string(),
                description: "Docs".to_string(),
                writable: false,
                sections: vec![],
            },
            CollectionDef {
                name: "abs".to_string(),
                path: "/abs/notes".to_string(),
                description: "Notes".to_string(),
                writable: true,
                sections: vec![SectionDef { prefix: "p".to_string(), description: "d".to_string() }],
            },
        ],
    };
    let r = config.clone().resolve_in("/etc/kb", Some("/home/me"), None, |_p: &str| None);
    assert_eq!(r.cache_dir, "/home/me/cache/kb");
    assert_eq!(r.collections[0].path, "/etc/kb/docs");
    assert_eq!(r.collections[1].path, "/abs/notes");
    // A canonical form, where one is known, replaces the joined path.
    let c = config.resolve_in("/etc/kb", Some("/home/me"), None, |p: &str| {
        if p == "/etc/kb/docs" {
            Some("/srv/docs".to_string())
        } else {
            None
        }
    });
    assert_eq!(c.collections[0].path, "/srv/docs");
    assert_eq!(c.collections[1].path, "/abs/notes");
    assert!(r.collections[1].writable);
    assert_eq!(r.collections[1].sections.len(), 1);

    let bare = Config { cache_dir: None, collections: vec![] };
    assert_eq!(
        bare.resolve_in("/x", None, Some("/home/me/.cache"), |_p: &str| None).cache_dir,
        "/home/me/.cache/kb-mcp"
    );
    let bare = Config { cache_dir: None, collections: vec![] };
    assert_eq!(bare.resolve_in("/x", None, None, |_p: &str| None).cache_dir, "/tmp/kb-mcp");
    let keep = Config { cache_dir: Some("~/c".to_string()), collections: vec![] };
    assert_eq!(keep.resolve_in("/x", None, None, |_p: &str| None).cache_dir, "~/c");
    assert_eq!(kb_mcp::config::expand_home("~user/x", Some("/h")), "~user/x");
}

fn dated(path: &str, title: &str, collection: &str, section: &str, created: Option<&str>, updated: Option<&str>, tags: &[&str], body: &str) -> Document {
    let mut f = Vec::new();
    if let Some(c) = created {
        f.push(fm("created", FmValue::Str(c.to_string())));
    }
    if let Some(u) = updated {
        f.push(fm("updated", FmValue::Str(u.to_string())));
    }
    doc(path, title, section, collection, body, tags, f)
}

// Day numbers (days from the common era, 0001-01-01 = 1) of a few dates.
const DAY_2024_03_10: i32 = 738955;

#[test]
fn digest_groups_collections_and_recent_documents() {
    let docs = vec![
        dated("s/a.md", "A", "notes", "s", Some("2024-03-09"), None, &[], ""),
        dated("s/b.md", "B", "notes", "s", Some("2024-03-03"), None, &[], ""),
        dated("t/c.md", "C", "notes", "t", Some("2024-03-02"), None, &[], ""),
        dated("s/d.md", "D", "notes", "s", Some("2024-03-10"), None, &[], ""),
        dated("x.md", "X", "alpha", ROOT_SECTION, Some("not a date"), None, &[], ""),
    ];
    let sections = build_sections(&docs, &vec![]);
    let d = format_digest(&docs, &sections, None, DAY_2024_03_10);
    assert_eq!(d.total_documents, 5);
    assert_eq!(d.total_sections, 3);
    let names: Vec<&str> = d.collections.iter().map(|c| c.name.as_str()).collect();
    assert_eq!(names, vec!["alpha", "notes"]);
    let notes = &d.collections[1];
    assert_eq!(notes.doc_count, 4);
    assert_eq!(notes.sections[0].name, "s");
    assert_eq!(notes.sections[0].topics, vec!["A".to_string(), "B".to_string(), "D".to_string()]);
    assert!(notes.sections[0].hint.is_none());
    assert_eq!(notes.sections[1].hint.as_deref(), Some("thin — fewer than 2 documents"));
    let recent: Vec<(&str, &str)> = notes.recent.iter().map(|r| (r.path.as_str(), r.created.as_str())).collect();
    assert_eq!(recent, vec![("s/d.md", "2024-03-10"), ("s/a.md", "2024-03-09"), ("s/b.md", "2024-03-03")]);

    let only = format_digest(&docs, &sections, Some("alpha"), DAY_2024_03_10);
    assert_eq!(only.total_documents, 1);
    assert_eq!(only.collections.len(), 1);
    assert!(only.collections[0].recent.is_empty());
}

#[test]
fn digest_recent_window_ends_today() {
    let docs = vec![
        dated("a.md", "A", "notes", "s", Some("2024-03-11"), None, &[], ""),
        dated("b.md", "B", "notes", "s", Some("2024-03-10"), None, &[], ""),
        dated("c.md", "C", "notes", "s", Some("2024-03-02"), None, &[], ""),
        dated("d.md", "D", "notes", "s", Some("2024-03-03"), None, &[], ""),
    ];
    let sections = build_sections(&docs, &vec![]);
    let d = format_digest(&docs, &sections, None, DAY_2024_03_10);
    let recent: Vec<&str> = d.collections[0].recent.iter().map(|r| r.path.as_str()).collect();
    // A future date and one eight days back are both outside the window.
    assert_eq!(recent, vec!["b.md", "d.md"]);
}

#[test]
fn every_document_is_counted_in_a_section() {
    let f = |rel: &str| SourceFile { collection: "languages".to_string(), rel_path: rel.to_string(), content: "x".to_string() };
    let files = vec![f("golang/a.md"), f("rust.md"), f("/abs/b.md"), f("/")];
    let index = Index::build(&vec![languages()], &files);
    let sections: Vec<&str> = index.documents.iter().map(|d| d.section.as_str()).collect();
    // As `Path::components` reads them: a path with one component is at the root.
    assert_eq!(sections, vec!["golang", ROOT_SECTION, "/", ROOT_SECTION]);
    let total: usize = index.sections.iter().map(|s| s.doc_count).sum();
    assert_eq!(total, index.documents.len());
}

#[test]
fn day_numbers_match_chrono() {
    let day = chrono::Datelike::num_days_from_ce(&chrono::NaiveDate::from_ymd_opt(2024, 3, 10).unwrap());
    assert_eq!(day, DAY_2024_03_10);
    assert_eq!(chrono::Datelike::num_days_from_ce(&chrono::NaiveDate::MIN) as i64, kb_mcp::dates::MIN_DATE_DAYS);
    assert_eq!(kb_mcp::dates::parse_ymd("2024-03-10"), Some(DAY_2024_03_10));
    assert_eq!(kb_mcp::dates::parse_ymd("2024-13-10"), None);
}

#[test]
fn wiki_links_are_leftmost_non_overlapping_matches() {
    // "[[]]" is no link; "[[[x]]" links to "[x"; a link stops at the first "]".
    let docs = vec![dated("a.md", "A", "v", ROOT_SECTION, None, None, &["t"], "[[]] [[[x]] [[y]z]] [[ok]]")];
    let h = format_health(&docs, None, 90, 0, DAY_2024_03_10).unwrap();
    let raws: Vec<&str> = h.collections[0].broken_links.iter().map(|b| b.raw.as_str()).collect();
    assert_eq!(raws, vec!["[[[x]]", "[[ok]]"]);
}

#[test]
fn health_reports_each_check() {
    let docs = vec![
        dated("a.md", "Alpha", "v", ROOT_SECTION, Some("2023-01-01"), None, &["t"], "Links to [[Beta]] and [[beta|alias]] and [[Missing#part]]."),
        dated("b.md", "Beta", "v", ROOT_SECTION, Some("2024-03-01"), Some("2024-03-05"), &[], "one two three"),
        dated("c.md", "Gamma", "w", ROOT_SECTION, None, None, &["x"], "[[a]]"),
    ];
    let h = format_health(&docs, None, 90, 3, DAY_2024_03_10).unwrap();
    assert_eq!(h.total_documents_checked, 3);
    let v = &h.collections[0];
    assert_eq!(v.name, "v");
    assert_eq!(v.doc_count, 2);
    let paths = |refs: &Vec<kb_mcp::health::HealthDocRef>| refs.iter().map(|r| r.path.clone()).collect::<Vec<_>>();
    assert!(v.missing_created.is_empty());
    assert_eq!(paths(&v.missing_updated), vec!["a.md".to_string()]);
    assert_eq!(paths(&v.no_tags), vec!["b.md".to_string()]);
    assert_eq!(v.stale.len(), 1);
    assert_eq!(v.stale[0].path, "a.md");
    assert_eq!(v.stale[0].last_date, "2023-01-01");
    assert!(v.stubs.is_empty());
    // a.md is linked from c.md, b.md from a.md.
    assert!(v.orphans.is_empty());
    assert_eq!(v.broken_links.len(), 1);
    assert_eq!(v.broken_links[0].source, "a.md");
    assert_eq!(v.broken_links[0].target, "Missing");
    assert_eq!(v.broken_links[0].raw, "[[Missing#part]]");
    assert_eq!(v.issues, 4);
    let w = &h.collections[1];
    assert_eq!(paths(&w.missing_created), vec!["c.md".to_string()]);
    assert_eq!(w.stubs.len(), 1);
    assert_eq!(w.stubs[0].word_count, 1);
    assert_eq!(paths(&w.orphans), vec!["c.md".to_string()]);
    assert_eq!(w.issues, 4);
    assert_eq!(h.total_issues, 8);

    // Without any wiki-link, nothing is an orphan.
    let plain = vec![dated("a.md", "A", "v", ROOT_SECTION, None, None, &[], "")];
    let h = format_health(&plain, Some("v"), 90, 0, DAY_2024_03_10).unwrap();
    assert!(h.collections[0].orphans.is_empty());
    let none = format_health(&plain, Some("other"), 90, 0, DAY_2024_03_10).unwrap();
    assert_eq!(none.total_documents_checked, 0);
    assert!(none.collections.is_empty());
}

#[test]
fn health_report_takes_links_as_given() {
    let docs = vec![
        dated("a.md", "A", "v", ROOT_SECTION, None, None, &[], ""),
        dated("b.md", "B", "v", ROOT_SECTION, None, None, &[], ""),
    ];
    let links = vec![vec![("[[b.md]]".to_string(), "b.md".to_string())], vec![]];
    let h = health_report(&docs, None, 90, 0, DAY_2024_03_10, &links);
    let v = &h.collections[0];
    assert_eq!(v.orphans.len(), 1);
    assert_eq!(v.orphans[0].path, "a.md");
    // " b " resolves, trimmed, by the path without .md.
    let links = vec![vec![("[[B]]".to_string(), " b ".to_string())], vec![]];
    let h = health_report(&docs, None, 90, 0, DAY_2024_03_10, &links);
    assert!(h.collections[0].broken_links.is_empty());
}

#[test]
fn export_concatenates_documents_with_headers() {
    let a = doc("a.md", "A", "s", "v", "", &[], vec![fm("status", FmValue::Str("draft".to_string())), fm("n", FmValue::Int(3))]);
    let b = doc("b.md", "B", "s", "v", "", &[], vec![]);
    let items = vec![(&a, "Body A".to_string()), (&b, "Body B".to_string())];
    assert_eq!(
        format_export(&items, Some("v"), "2024-03-10"),
        "# Vault Export: v (2024-03-10)\n\n---\n## a.md\nstatus: draft\nn: 3\n---\n\nBody A\n\n---\n## b.md\n---\n\nBody B\n\n"
    );
    assert_eq!(format_export(&Vec::new(), None, "2024-03-10"), "# Vault Export (2024-03-10)\n\n");
}
