# kb_mcp

A library for markdown knowledge bases, verified with Verus, and the MCP
server and command line built around it.

The library (`src/`) holds the logic, each function with a contract that
Verus proves:

- `index`, `yaml`, `types`: parsing documents (frontmatter, title, section)
  and building the index and its sections.
- `hash_index`, `store`: content hashes, their sidecar text, sync diffs and
  sync plans, store file names, document URIs.
- `search`: merging and ranking the hits of the per-collection stores.
- `query`, `format`, `digest`, `health`, `export`: frontmatter queries and the
  records and texts that the tools answer with.
- `notes`, `write`: new notes (file names, content, collision-free paths),
  when the search stores are re-synced (cooldown and staleness), and the
  decisions and messages of the tools.
- `paths`: path components as `std::path::Path` reads them, and whether a
  path lies within a directory.
- `config`, `params`: configuration resolution and tool arguments.
- `text`, `order`, `group`, `dates`: text primitives, orders, grouping by
  collection, and calendar dates.

The application (`app/`) does the I/O: reading the configuration and the
collections, the `.mv2` search stores (memvid-core), the command line (clap)
and the MCP server (rmcp). It serialises the library's records to JSON.
