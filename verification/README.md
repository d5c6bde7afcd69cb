# cctalk_docs

Semantic search over the ccTalk serial protocol specification: the PDFs are
split into section-aware chunks with provenance metadata, embedded, stored in
SQLite with sqlite-vec, and served over HTTP or MCP.

The chunking, page cleaning, outline, identifiers, row layout and request
validation are a Verus-verified library (`src/`):

| Module | What it holds |
|---|---|
| `chars`, `text`, `number` | character classes, trimming, lines, decimal numerals |
| `page` | page cleaning (boilerplate, table of contents, blank lines) and page lookup |
| `heading`, `outline` | section headings and the document outline with breadcrumbs |
| `paths`, `meta` | Unix path components, per-document metadata, chunk ids and context lines |
| `tokenize`, `chunker` | the tokenizer and splitter, and chunking a document |
| `identity` | chunk indices and ids within a document |
| `storage` | chunks as database rows and back, embedding checks |
| `api` | request parameters, document names, error responses |

`app/` is the program around it (`http`, `stdio`, or `seed <folder>`): PDF
text extraction, embeddings, SQLite, and the HTTP and MCP servers.
