use kb_mcp::config::{ResolvedCollection, SectionDef};
use kb_mcp::hash_index::{compute_diff, parse_hashes, serialize_hashes, HashIndex};
use kb_mcp::index::parse_document;
use kb_mcp::store::{document_uri, hash_content, hashes_path, hex_prefix, mv2_path, parse_uri, plan_sync};

#[test]
fn test_document_uri() {
    assert_eq!(document_uri("vault", "concepts/mcp.md"), "vault://concepts/mcp.md");
}

#[test]
fn test_parse_uri() {
    let (coll, path) = parse_uri("vault://concepts/mcp.md").unwrap();
    assert_eq!(coll, "vault");
    assert_eq!(path, "concepts/mcp.md");
}

#[test]
fn test_parse_uri_none() {
    assert!(parse_uri("no-scheme-here").is_none());
}

#[test]
fn test_hash_content() {
    let hash = hash_content(b"hello world");
    assert_eq!(hash.len(), 64); // blake3 hex is 64 chars
}

#[test]
fn test_hex_prefix() {
    let bytes = [0xab, 0xcd, 0xef, 0x12, 0x34];
    assert_eq!(hex_prefix(&bytes, 8), "abcdef12");
    assert_eq!(hex_prefix(&bytes, 4), "abcd");
}

#[test]
fn test_hashes_roundtrip() {
    let mut hashes = HashIndex::new();
    hashes.insert("concepts/mcp.md".into(), "abc123".into());
    hashes.insert("patterns/keeper.md".into(), "def456".into());

    let text = serialize_hashes(&hashes);
    let loaded = parse_hashes(&text);

    assert_eq!(loaded.get("concepts/mcp.md").unwrap(), "abc123");
    assert_eq!(loaded.get("patterns/keeper.md").unwrap(), "def456");
}

#[test]
fn uri_roundtrip_keeps_nested_paths() {
    let uri = document_uri("skills", "a/b/c.md");
    assert_eq!(parse_uri(&uri), Some(("skills", "a/b/c.md")));
}

#[test]
fn parse_uri_splits_at_first_separator() {
    assert_eq!(parse_uri("a://b://c"), Some(("a", "b://c")));
    assert_eq!(parse_uri("://x"), Some(("", "x")));
}

#[test]
fn hash_content_is_blake3_hex() {
    // BLAKE3 of the empty input, a published test vector.
    assert_eq!(
        hash_content(b""),
        "af1349b9f5f9a1a6a0404dea36dcc9499bcb25c9adc112b7cc9a93cae41f3262"
    );
    assert_ne!(hash_content(b"a"), hash_content(b"b"));
}

#[test]
fn hex_prefix_longer_than_digest_gives_whole_hex() {
    let bytes = [0x01, 0xff];
    assert_eq!(hex_prefix(&bytes, 10), "01ff");
    assert_eq!(hex_prefix(&bytes, 3), "01f");
    assert_eq!(hex_prefix(&bytes, 0), "");
}

#[test]
fn serialized_hashes_are_sorted_lines() {
    let mut hashes = HashIndex::new();
    hashes.insert("b.md".into(), "222".into());
    hashes.insert("a.md".into(), "111".into());
    assert_eq!(serialize_hashes(&hashes), "111 a.md\n222 b.md");
}

#[test]
fn parse_hashes_later_line_wins_and_skips_lines_without_space() {
    let h = parse_hashes("111 a.md\ngarbage\n222 a.md\n333 dir/with space.md");
    assert_eq!(h.get("a.md").unwrap(), "222");
    assert_eq!(h.get("dir/with space.md").unwrap(), "333");
    assert_eq!(h.len(), 2);
    assert!(h.get("garbage").is_none());
}

fn collection(name: &str, path: &str) -> ResolvedCollection {
    ResolvedCollection {
        name: name.to_string(),
        path: path.to_string(),
        description: String::new(),
        writable: false,
        sections: vec![SectionDef { prefix: "x".to_string(), description: "y".to_string() }],
    }
}

#[test]
fn store_paths_share_stem_and_swap_extension() {
    let c = collection("vault", "/home/u/vault");
    let mv2 = mv2_path("/cache/kb-mcp", &c);
    let hashes = hashes_path("/cache/kb-mcp", &c);
    assert!(mv2.starts_with("/cache/kb-mcp/"));
    assert!(mv2.ends_with("-vault.mv2"));
    assert_eq!(hashes, format!("{}.hashes", &mv2[..mv2.len() - 4]));
    // The stem starts with eight hex characters of the path's SHA-256.
    let stem = &mv2["/cache/kb-mcp/".len()..];
    assert_eq!(stem.len(), 8 + "-vault.mv2".len());
    assert!(stem[..8].chars().all(|ch| ch.is_ascii_hexdigit()));
    // Another path gives another stem.
    let other = mv2_path("/cache/kb-mcp", &collection("vault", "/elsewhere/vault"));
    assert_ne!(mv2, other);
}

#[test]
fn unchanged_hashes_need_no_sync() {
    let mut h = HashIndex::new();
    h.insert("a.md".into(), "1".into());
    h.insert("b.md".into(), "2".into());
    let mut same = HashIndex::new();
    same.insert("b.md".into(), "2".into());
    same.insert("a.md".into(), "1".into());
    let diff = compute_diff(&h, &same);
    assert!(diff.to_add.is_empty());
    assert!(diff.to_remove.is_empty());
    assert!(!diff.is_fresh);
}

#[test]
fn diff_reports_added_changed_and_removed() {
    let mut current = HashIndex::new();
    current.insert("a.md".into(), "1".into());
    current.insert("b.md".into(), "new".into());
    let mut stored = HashIndex::new();
    stored.insert("b.md".into(), "old".into());
    stored.insert("c.md".into(), "3".into());
    let diff = compute_diff(&current, &stored);
    let mut added = diff.to_add.clone();
    added.sort();
    assert_eq!(added, vec!["a.md".to_string(), "b.md".to_string()]);
    assert_eq!(diff.to_remove, vec!["c.md".to_string()]);
    assert!(!diff.is_fresh);
}

#[test]
fn clear_collection_store_forces_full_reingest() {
    // An empty sidecar (a cleared store) is fresh: every file is added and
    // every document of the collection is ingested again.
    let docs = vec![
        parse_document("golang/web-frameworks.md", "# Go Web Frameworks\n\nGin.\n", "languages"),
        parse_document("rust.md", "# Rust Best Practices\n\nOwnership.\n", "languages"),
        parse_document("other.md", "# Other\n", "elsewhere"),
    ];
    let mut current = HashIndex::new();
    current.insert("golang/web-frameworks.md".into(), "h1".into());
    current.insert("rust.md".into(), "h2".into());
    let diff = compute_diff(&current, &HashIndex::new());
    assert!(diff.is_fresh);
    let plan = plan_sync(&diff, true, "languages", &docs);
    assert_eq!(plan.changes, 2);
    assert!(!plan.open_existing);
    assert!(!plan.full_rebuild);
    assert_eq!(plan.ingest, vec![0, 1]);

    // A second sync against the saved sidecar has nothing to do.
    let diff = compute_diff(&current, &current);
    let plan = plan_sync(&diff, true, "languages", &docs);
    assert_eq!(plan.changes, 0);
    assert!(plan.open_existing);
    assert!(plan.ingest.is_empty());
}

#[test]
fn removal_forces_full_rebuild() {
    let docs = vec![
        parse_document("a.md", "# A\n", "c"),
        parse_document("b.md", "# B\n", "c"),
    ];
    let mut current = HashIndex::new();
    current.insert("a.md".into(), "1".into());
    current.insert("b.md".into(), "2".into());
    let mut stored = HashIndex::new();
    stored.insert("a.md".into(), "1".into());
    stored.insert("b.md".into(), "2".into());
    stored.insert("gone.md".into(), "3".into());
    let diff = compute_diff(&current, &stored);
    let plan = plan_sync(&diff, true, "c", &docs);
    assert_eq!(plan.changes, 1);
    assert!(plan.full_rebuild);
    assert_eq!(plan.ingest, vec![0, 1]);

    // An addition alone ingests only the added document.
    let mut stored = HashIndex::new();
    stored.insert("a.md".into(), "1".into());
    let diff = compute_diff(&current, &stored);
    let plan = plan_sync(&diff, false, "c", &docs);
    assert!(!plan.full_rebuild);
    assert!(!plan.open_existing);
    assert_eq!(plan.ingest, vec![1]);
}
