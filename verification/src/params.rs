//! The arguments of the tools and of the command line, with their defaults.
//!
//! These records carry no behaviour of their own; the application decodes
//! requests and command lines into them.

use vstd::prelude::*;

verus! {

/// The default staleness threshold of the health report, in days.
pub fn default_stale_days() -> (r: u32)
    ensures
        r == 90,
{
    90
}

/// The default minimum word count below which a document is a stub.
pub fn default_min_words() -> (r: u32)
    ensures
        r == 50,
{
    50
}

/// The default number of documents an export includes.
pub fn default_max_documents() -> (r: usize)
    ensures
        r == 200,
{
    200
}

/// The default number of search results.
pub fn default_max_results() -> (r: usize)
    ensures
        r == 10,
{
    10
}

/// Arguments of `get_document`.
pub struct GetDocumentParams {
    /// Path to the document (e.g. "concepts/mcp-server-pattern.md") or document title.
    pub path: String,
}

/// Arguments of `kb_context`.
pub struct ContextParams {
    /// Path to the document or document title.
    pub path: String,
}

/// Arguments of `search`.
pub struct SearchParams {
    /// Search query: terms, phrases ("exact match") and boolean operators (AND, OR).
    pub query: String,
    /// Optional collection filter.
    pub collection: Option<String>,
    /// Optional section scope filter.
    pub scope: Option<String>,
    /// Maximum number of results to return (default: 10).
    pub max_results: usize,
}

/// Arguments of `kb_write`.
pub struct WriteParams {
    /// Target collection name (must be writable).
    pub collection: String,
    /// Document title.
    pub title: String,
    /// Tags for the document.
    pub tags: Vec<String>,
    /// Document body content (markdown).
    pub body: String,
    /// Optional status field for frontmatter.
    pub status: Option<String>,
    /// Optional source field for frontmatter.
    pub source: Option<String>,
}

/// Arguments of `kb_digest`.
pub struct DigestParams {
    /// Filter to a specific collection (default: all).
    pub collection: Option<String>,
}

/// Arguments of `kb_query`; the filters combine with AND.
pub struct QueryParams {
    /// Filter by tag.
    pub tag: Option<String>,
    /// Filter by frontmatter status field.
    pub status: Option<String>,
    /// Filter by created date (YYYY-MM-DD, documents created on or after).
    pub created_after: Option<String>,
    /// Filter by collection name.
    pub collection: Option<String>,
    /// Only documents that have a sources field.
    pub has_sources: bool,
}

/// Arguments of `kb_export`.
pub struct ExportParams {
    /// Collection to export (default: all).
    pub collection: Option<String>,
    /// Maximum number of documents to include (default: 200).
    pub max_documents: usize,
}

/// Arguments of `kb_health`.
pub struct HealthParams {
    /// Filter to a specific collection.
    pub collection: Option<String>,
    /// Days threshold for staleness (default: 90).
    pub stale_days: u32,
    /// Minimum word count below which documents are stubs (default: 50).
    pub min_words: u32,
}

/// The command line: a subcommand and an optional configuration path.
pub struct Cli {
    pub command: Command,
    /// Path to the `collections.ron` configuration file.
    pub config: Option<String>,
}

/// The subcommands; each mirrors a tool.
pub enum Command {
    /// List all sections with document counts.
    ListSections,
    /// Get a document by path or title.
    GetDocument { path: String },
    /// Search across collections.
    Search { query: String, collection: Option<String>, scope: Option<String>, max_results: usize },
    /// Token-efficient document briefing (frontmatter and summary).
    Context { path: String },
    /// Create a document in a writable collection.
    Write {
        collection: String,
        title: String,
        /// Comma-separated tags.
        tags: Option<String>,
        body: String,
        status: Option<String>,
        source: Option<String>,
        /// Subdirectory within the collection.
        directory: Option<String>,
        /// Explicit file name; skips the date prefix.
        filename: Option<String>,
    },
    /// Rebuild the search index from disk.
    Reindex,
    /// Vault summary: coverage, gaps, recent additions.
    Digest { collection: Option<String> },
    /// Filter documents by frontmatter fields.
    Query {
        tag: Option<String>,
        status: Option<String>,
        created_after: Option<String>,
        collection: Option<String>,
        has_sources: bool,
    },
    /// Export the vault as a single markdown document.
    Export { collection: Option<String> },
    /// Vault health diagnostics.
    Health { collection: Option<String>, stale_days: u32, min_words: u32 },
}

} // verus!
