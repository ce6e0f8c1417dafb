use kb_mcp::config::ResolvedCollection;
use kb_mcp::index::parse_document;
use kb_mcp::notes::{
    auto_reindex_due, check_created_after, check_write_target, collection_exists, collection_not_found,
    explicit_file_name, export_selection, find_collection, is_stale, no_documents_message, note_content,
    note_file_name, reindex_message, reindex_step, split_tags, stale_positions,
    truncation_note, AUTO_REINDEX_COOLDOWN_SECS,
};
use kb_mcp::paths::{path_components_exec, path_within};
use kb_mcp::params::{default_max_documents, default_max_results, default_min_words, default_stale_days};
use kb_mcp::types::Document;

fn coll(name: &str, writable: bool) -> ResolvedCollection {
    ResolvedCollection {
        name: name.to_string(),
        path: format!("/kb/{}", name),
        description: String::new(),
        writable,
        sections: vec![],
    }
}

#[test]
fn write_target_must_exist_and_be_writable() {
    let colls = vec![coll("vault", false), coll("notes", true), coll("drafts", true)];
    assert_eq!(check_write_target(&colls, "notes"), Ok(1));
    assert_eq!(
        check_write_target(&colls, "nope"),
        Err("Collection 'nope' not found. Available: vault, notes, drafts".to_string())
    );
    assert_eq!(
        check_write_target(&colls, "vault"),
        Err("Collection 'vault' is read-only. Writable collections: notes, drafts".to_string())
    );
    let ro = vec![coll("vault", false)];
    assert_eq!(
        check_write_target(&ro, "vault"),
        Err("Collection 'vault' is read-only. No writable collections configured.".to_string())
    );
    assert_eq!(find_collection(&colls, "drafts"), Some(2));
    assert!(collection_exists(&colls, "vault"));
    assert!(!collection_exists(&colls, "Vault"));
    assert_eq!(collection_not_found(&ro, "x"), "Collection 'x' not found. Available: vault");
}

#[test]
fn note_names_and_content() {
    assert_eq!(note_file_name("2024-03-10", "My First Note!"), "2024-03-10-my-first-note.md");
    assert_eq!(explicit_file_name("cognitive-memory-model"), "cognitive-memory-model.md");
    assert_eq!(explicit_file_name("already.md"), "already.md");
    assert_eq!(split_tags(" a, b ,c,, "), vec!["a", "b", "c", "", ""]);
    assert_eq!(split_tags(""), vec![""]);
    let content = note_content(
        "Title",
        "Body text",
        &vec!["x".to_string(), "y".to_string()],
        "2024-03-10",
        Some("draft"),
        None,
    );
    assert_eq!(
        content,
        "---\ntags: [x, y]\ncreated: 2024-03-10\nupdated: 2024-03-10\nstatus: draft\n---\n\n# Title\n\nBody text\n"
    );
    let bare = note_content("T", "B", &vec![], "2024-03-10", None, Some("web"));
    assert_eq!(bare, "---\ncreated: 2024-03-10\nupdated: 2024-03-10\nsource: web\n---\n\n# T\n\nB\n");
}

#[test]
fn written_note_reads_back() {
    let content = note_content(
        "Cognitive Memory",
        "AI agents benefit from memory.",
        &vec!["ai".to_string(), "memory".to_string()],
        "2024-03-10",
        Some("draft"),
        Some("paper"),
    );
    let d = parse_document("2024-03-10-cognitive-memory.md", &content, "notes");
    assert_eq!(d.title, "Cognitive Memory");
    assert_eq!(d.body, "# Cognitive Memory\n\nAI agents benefit from memory.\n");
    assert_eq!(d.tags, vec!["ai".to_string(), "memory".to_string()]);
    assert_eq!(d.section, kb_mcp::types::ROOT_SECTION);
    let keys: Vec<&str> = d.frontmatter.iter().map(|e| e.key.as_str()).collect();
    assert_eq!(keys, vec!["created", "source", "status", "tags", "updated"]);
}

#[test]
fn staleness_of_stores() {
    assert!(is_stale(Some(10), Some(5)));
    assert!(!is_stale(Some(5), Some(5)));
    assert!(!is_stale(Some(4), Some(5)));
    assert!(is_stale(Some(4), None));
    assert!(!is_stale(None, Some(4)));
    assert!(!is_stale(None, None));
    let dirs = vec![Some(10), None, Some(3), Some(7)];
    let hashes = vec![Some(5), Some(1), None, Some(9)];
    assert_eq!(stale_positions(&dirs, &hashes), vec![0, 2]);
}

fn doc(path: &str, collection: &str) -> Document {
    Document {
        path: path.to_string(),
        title: path.to_string(),
        tags: vec![],
        body: String::new(),
        section: String::new(),
        collection: collection.to_string(),
        frontmatter: vec![],
    }
}

#[test]
fn export_selection_and_messages() {
    let docs = vec![doc("a.md", "v"), doc("b.md", "w"), doc("c.md", "v"), doc("d.md", "v")];
    let (sel, matching) = export_selection(&docs, Some("v"), 2);
    assert_eq!(matching, 3);
    let paths: Vec<&str> = sel.iter().map(|d| d.path.as_str()).collect();
    assert_eq!(paths, vec!["a.md", "c.md"]);
    let (sel, matching) = export_selection(&docs, None, 200);
    assert_eq!((sel.len(), matching), (4, 4));
    assert_eq!(truncation_note(2, 3), "... truncated: showing 2 of 3 documents\n");
    assert_eq!(no_documents_message(Some("v")), "No documents found in collection 'v'");
    assert_eq!(no_documents_message(None), "No documents found");
    assert_eq!(reindex_message(12, 3, None), "Reindexed 12 documents across 3 sections");
    assert_eq!(reindex_message(0, 0, Some(5)), "Reindexed 0 documents across 0 sections (5 changes synced)");
}

#[test]
fn created_after_must_be_a_date() {
    assert_eq!(check_created_after("2024-01-31"), None);
    assert_eq!(
        check_created_after("2024-02-30"),
        Some("Invalid created_after date '2024-02-30', expected YYYY-MM-DD format".to_string())
    );
    assert!(check_created_after("yesterday").is_some());
}

#[test]
fn defaults() {
    assert_eq!(default_stale_days(), 90);
    assert_eq!(default_min_words(), 50);
    assert_eq!(default_max_documents(), 200);
    assert_eq!(default_max_results(), 10);
}

#[test]
fn auto_reindex_waits_for_the_cooldown() {
    assert_eq!(AUTO_REINDEX_COOLDOWN_SECS, 5);
    assert_eq!(auto_reindex_due(10, 0), Some(10));
    assert_eq!(auto_reindex_due(5, 0), Some(5));
    assert_eq!(auto_reindex_due(4, 0), None);
    assert_eq!(auto_reindex_due(104, 100), None);
    // A clock that went back counts as no time passed.
    assert_eq!(auto_reindex_due(3, 10), None);
}

#[test]
fn reindex_step_checks_only_after_the_cooldown() {
    let dirs = vec![Some(20), Some(5), None, Some(7)];
    let hashes = vec![Some(10), Some(9), Some(1), None];
    let (last, stale) = reindex_step(100, 0, &dirs, &hashes);
    assert_eq!(last, 100);
    assert_eq!(stale, vec![0, 3]);
    // A second request within the cooldown checks nothing.
    let (again, none) = reindex_step(103, last, &dirs, &hashes);
    assert_eq!(again, 100);
    assert!(none.is_empty());
    let (later, stale) = reindex_step(105, last, &dirs, &hashes);
    assert_eq!(later, 105);
    assert_eq!(stale, vec![0, 3]);
}

#[test]
fn path_components_follow_std() {
    let comps = |p: &str| path_components_exec(p).iter().map(|c| c.iter().collect::<String>()).collect::<Vec<_>>();
    assert_eq!(comps("/kb//notes/./x/"), vec!["/", "kb", "notes", "x"]);
    assert_eq!(comps("./a/../b"), vec![".", "a", "..", "b"]);
    assert!(comps("").is_empty());
    for p in ["/kb//notes/./x/", "./a/../b", "a/b.md", "rust.md", "/", "//a", "a/./", "."] {
        let std_comps: Vec<String> =
            std::path::Path::new(p).components().map(|c| c.as_os_str().to_string_lossy().to_string()).collect();
        assert_eq!(comps(p), std_comps, "{}", p);
    }
}

#[test]
fn paths_within_a_base_compare_by_component() {
    assert!(path_within("/kb/notes/concepts", "/kb/notes"));
    assert!(path_within("/kb/notes", "/kb/notes"));
    assert!(path_within("/kb/notes/", "/kb//notes"));
    assert!(path_within("/kb/./notes/x", "/kb/notes"));
    assert!(!path_within("/kb/notes-old/x", "/kb/notes"));
    assert!(!path_within("/kb", "/kb/notes"));
    assert!(!path_within("kb/notes/x", "/kb/notes"));
    assert!(path_within("./a/b", "./a"));
    assert!(!path_within("a/b", "./a"));
    assert!(path_within("a/b", ""));
    for (p, b) in [("/kb/notes/x", "/kb/notes"), ("/kb/notesx", "/kb/notes"), ("./a", "a"), ("a//b/", "a/b")] {
        assert_eq!(path_within(p, b), std::path::Path::new(p).starts_with(b));
    }
}
